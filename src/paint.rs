//! Painting on a pixel canvas: spots, hard strokes and antialiased strokes, with a
//! radius given in the caller's units and scaled to the canvas.

use vstd::prelude::*;
use crate::antialias_thick_line::{antialiased_coverage, draw_antialiased_thick_line, Coverage};
use crate::objects::{Length, Point, COORD_LIMIT};
use crate::thick_line::{thick_line_points, ThickLine};

verus! {

/// An RGBA colour, eight bits per channel.
#[derive(Debug, Copy, Clone, PartialEq, Eq, Structural)]
pub struct Colour {
    pub r: u8,
    pub g: u8,
    pub b: u8,
    pub a: u8,
}

impl Colour {
    pub open spec fn spec_black() -> Colour {
        Colour { r: 0, g: 0, b: 0, a: 255 }
    }

    /// Opaque black.
    pub fn black() -> (r: Colour)
        ensures
            r == Colour::spec_black(),
    {
        Colour { r: 0, g: 0, b: 0, a: 255 }
    }

    /// This colour with its alpha replaced.
    pub fn with_alpha(self, a: u8) -> (r: Colour)
        ensures
            r == (Colour { a, ..self }),
    {
        Colour { a, ..self }
    }
}

/// A write outside the canvas.
#[derive(Debug, Copy, Clone, PartialEq, Eq, Structural)]
pub struct OutOfBounds;

/// The radius of a brush in the caller's units, and its colour.
#[derive(Debug, Copy, Clone, PartialEq, Eq, Structural)]
pub struct PaintSettings {
    pub radius: Length,
    pub colour: Colour,
}

impl PaintSettings {
    /// A brush of `radius` painting `colour`.
    pub fn new(radius: Length, colour: Colour) -> (r: PaintSettings)
        ensures
            r.radius == radius,
            r.colour == colour,
    {
        PaintSettings { radius, colour }
    }
}

impl Default for PaintSettings {
    /// A black brush of radius 0.05 (13 sub-pixel units).
    fn default() -> (r: PaintSettings)
        ensures
            r.radius.units == 13,
            r.colour == Colour::spec_black(),
    {
        PaintSettings { radius: Length { units: 13 }, colour: Colour::black() }
    }
}

/// A rectangular grid of pixels, stored row by row.
#[derive(Debug)]
pub struct Canvas {
    width: u32,
    height: u32,
    pixels: Vec<Colour>,
}

/// The alpha byte for a coverage of `intensity / 256`, rounded to nearest.
pub open spec fn alpha_of(intensity: int) -> int {
    (intensity * 255 + 128) / 256
}

/// The radius of a brush on a canvas `width` pixels wide that spans `plane_scale`
/// in the caller's units, in sub-pixel units: `radius * width / plane_scale`.
pub open spec fn scaled_radius(radius: Length, width: int, plane_scale: Length) -> int {
    radius.units * width * 256 / (plane_scale.units as int)
}

proof fn lemma_index(x: int, y: int, x2: int, y2: int, w: int, h: int)
    requires
        0 <= x < w,
        0 <= y < h,
        0 <= x2 < w,
        0 <= y2 < h,
    ensures
        0 <= y * w + x < w * h,
        (y * w + x == y2 * w + x2) ==> (x == x2 && y == y2),
{
    assert(0 <= y * w + x < w * h) by (nonlinear_arith)
        requires 0 <= x < w, 0 <= y < h;
    if y < y2 {
        assert(y * w + x < y2 * w + x2) by (nonlinear_arith)
            requires 0 <= x < w, y < y2, 0 <= x2;
    } else if y > y2 {
        assert(y * w + x > y2 * w + x2) by (nonlinear_arith)
            requires 0 <= x2 < w, y > y2, 0 <= x;
    }
}

impl Canvas {
    pub closed spec fn spec_width(&self) -> int {
        self.width as int
    }

    pub closed spec fn spec_height(&self) -> int {
        self.height as int
    }

    /// The colour of the pixel at column `x` and row `y`.
    pub closed spec fn pixel(&self, x: int, y: int) -> Colour {
        self.pixels@[y * self.width + x]
    }

    /// The canvas holds one colour for each pixel.
    pub closed spec fn wf(&self) -> bool {
        &&& self.pixels@.len() == self.width * self.height
        &&& self.pixels@.len() <= usize::MAX
    }

    /// Whether `(x, y)` is a pixel of the canvas.
    pub open spec fn in_bounds(&self, x: int, y: int) -> bool {
        0 <= x < self.spec_width() && 0 <= y < self.spec_height()
    }

    /// A canvas of `width` by `height` pixels, all of colour `fill`.
    pub fn new(width: u32, height: u32, fill: Colour) -> (r: Canvas)
        requires
            width * height <= usize::MAX,
        ensures
            r.wf(),
            r.spec_width() == width,
            r.spec_height() == height,
            forall|x: int, y: int| r.in_bounds(x, y) ==> #[trigger] r.pixel(x, y) == fill,
    {
        let n: usize = width as usize * height as usize;
        let mut pixels: Vec<Colour> = Vec::new();
        let mut i: usize = 0;
        while i < n
            invariant
                i <= n,
                pixels@.len() == i,
                forall|j: int| 0 <= j < i ==> pixels@[j] == fill,
            decreases n - i,
        {
            pixels.push(fill);
            i = i + 1;
        }
        let r = Canvas { width, height, pixels };
        proof {
            assert forall|x: int, y: int| r.in_bounds(x, y) implies r.pixel(x, y) == fill by {
                lemma_index(x, y, x, y, width as int, height as int);
            }
        }
        r
    }

    /// Sets every pixel to transparent black.
    pub fn clear(&mut self)
        requires
            old(self).wf(),
        ensures
            final(self).wf(),
            final(self).spec_width() == old(self).spec_width(),
            final(self).spec_height() == old(self).spec_height(),
            forall|x: int, y: int| final(self).in_bounds(x, y)
                ==> #[trigger] final(self).pixel(x, y) == (Colour { r: 0, g: 0, b: 0, a: 0 }),
    {
        let n = self.pixels.len();
        let mut i: usize = 0;
        while i < n
            invariant
                i <= n,
                n == self.pixels@.len(),
                self.width == old(self).width,
                self.height == old(self).height,
                self.pixels@.len() == self.width * self.height,
                forall|j: int| 0 <= j < i ==> self.pixels@[j] == (Colour { r: 0, g: 0, b: 0, a: 0 }),
            decreases n - i,
        {
            self.pixels.set(i, Colour { r: 0, g: 0, b: 0, a: 0 });
            i = i + 1;
        }
        proof {
            assert forall|x: int, y: int| #[trigger] self.in_bounds(x, y)
                implies self.pixel(x, y) == (Colour { r: 0, g: 0, b: 0, a: 0 }) by {
                lemma_index(x, y, x, y, self.width as int, self.height as int);
            }
        }
    }

    /// The width in pixels.
    pub fn width(&self) -> (r: u32)
        ensures
            r == self.spec_width(),
    {
        self.width
    }

    /// The height in pixels.
    pub fn height(&self) -> (r: u32)
        ensures
            r == self.spec_height(),
    {
        self.height
    }

    /// The colour at `(x, y)`, or `None` outside the canvas.
    pub fn get_color_at(&self, x: u32, y: u32) -> (r: Option<Colour>)
        requires
            self.wf(),
        ensures
            r is Some <==> self.in_bounds(x as int, y as int),
            r matches Some(c) ==> c == self.pixel(x as int, y as int),
    {
        if x >= self.width || y >= self.height {
            return None;
        }
        proof {
            lemma_index(x as int, y as int, x as int, y as int, self.width as int, self.height as int);
            assert((y as int) * (self.width as int) + (x as int) < self.pixels@.len());
        }
        let row: usize = y as usize * self.width as usize;
        Some(self.pixels[row + x as usize])
    }

    /// Paints `(x, y)` with `colour`; outside the canvas nothing changes and the
    /// write fails.
    pub fn set_color_at(&mut self, x: u32, y: u32, colour: Colour) -> (r: Result<(), OutOfBounds>)
        requires
            old(self).wf(),
        ensures
            final(self).wf(),
            final(self).spec_width() == old(self).spec_width(),
            final(self).spec_height() == old(self).spec_height(),
            r is Ok <==> old(self).in_bounds(x as int, y as int),
            forall|px: int, py: int| old(self).in_bounds(px, py) ==> #[trigger] final(self).pixel(px, py) == (
                if px == x && py == y { colour } else { old(self).pixel(px, py) }),
    {
        if x >= self.width || y >= self.height {
            return Err(OutOfBounds);
        }
        proof {
            lemma_index(x as int, y as int, x as int, y as int, self.width as int, self.height as int);
            assert((y as int) * (self.width as int) + (x as int) < self.pixels@.len());
        }
        let row: usize = y as usize * self.width as usize;
        let i = row + x as usize;
        self.pixels.set(i, colour);
        proof {
            assert forall|px: int, py: int| #[trigger] old(self).in_bounds(px, py) implies self.pixel(px, py) == (
                if px == x && py == y { colour } else { old(self).pixel(px, py) }) by {
                lemma_index(px, py, x as int, y as int, self.width as int, self.height as int);
            }
        }
        Ok(())
    }
}

/// `(px, py)` lies within the spot of `settings` centred on `(cx, cy)`, on a canvas
/// `width` pixels wide spanning `plane_scale`: its distance to the centre is at most
/// `radius * width / plane_scale`.
pub open spec fn in_spot(settings: PaintSettings, width: int, plane_scale: Length, cx: int, cy: int, px: int, py: int) -> bool {
    let s = plane_scale.units as int;
    let rw = settings.radius.units * width;
    s * s * ((px - cx) * (px - cx) + (py - cy) * (py - cy)) <= rw * rw
}

/// A pixel of a spot lies within the box of its floor radius.
proof fn lemma_spot_box(s: int, rw: int, d: int, e: int)
    requires
        s > 0,
        rw >= 0,
        s * s * (d * d + e * e) <= rw * rw,
    ensures
        -(rw / s) <= d <= rw / s,
{
    let ad = if d < 0 { -d } else { d };
    assert(ad * ad == d * d) by (nonlinear_arith)
        requires ad == (if d < 0 { -d } else { d });
    assert(s * ad * (s * ad) <= rw * rw) by (nonlinear_arith)
        requires
            s * s * (d * d + e * e) <= rw * rw,
            ad * ad == d * d,
    ;
    assert(s * ad >= 0) by (nonlinear_arith)
        requires s > 0, ad >= 0;
    crate::objects::lemma_square_le(s * ad, rw);
    let q = rw / s;
    vstd::arithmetic::div_mod::lemma_fundamental_div_mod(rw, s);
    vstd::arithmetic::div_mod::lemma_mod_bound(rw, s);
    assert(ad <= q) by (nonlinear_arith)
        requires
            s * ad <= rw,
            rw == s * q + rw % s,
            rw % s < s,
            s > 0,
    ;
}

/// `(s * d)^2 + (s * e)^2 <= bound`, where an overflow means "no".
fn spot_test(s: u128, d: u128, e: u128, bound: u128) -> (r: bool)
    ensures
        r == (s * s * (d * d + e * e) <= bound),
{
    proof {
        assert(s * s * (d * d + e * e) == (s * d) * (s * d) + (s * e) * (s * e)) by (nonlinear_arith);
    }
    let a = match s.checked_mul(d) {
        None => {
            proof {
                assert((s * d) * (s * d) >= s * d) by (nonlinear_arith)
                    requires s * d >= 1;
                assert((s * e) * (s * e) >= 0) by (nonlinear_arith);
            }
            return false;
        },
        Some(v) => v,
    };
    let b = match s.checked_mul(e) {
        None => {
            proof {
                assert((s * e) * (s * e) >= s * e) by (nonlinear_arith)
                    requires s * e >= 1;
                assert((s * d) * (s * d) >= 0) by (nonlinear_arith);
            }
            return false;
        },
        Some(v) => v,
    };
    let a2 = match a.checked_mul(a) {
        None => {
            proof {
                assert((s * e) * (s * e) >= 0) by (nonlinear_arith);
            }
            return false;
        },
        Some(v) => v,
    };
    let b2 = match b.checked_mul(b) {
        None => {
            return false;
        },
        Some(v) => v,
    };
    match a2.checked_add(b2) {
        None => false,
        Some(sum) => sum <= bound,
    }
}

impl Canvas {
    /// Paints every pixel of the canvas whose distance to `(x, y)` is at most
    /// `radius * width / plane_scale`, where `plane_scale` is how many of the caller's
    /// units the canvas spans across. Nothing outside the canvas is touched.
    pub fn draw_spot(&mut self, x: usize, y: usize, paint_settings: &PaintSettings, plane_scale: Length)
        requires
            old(self).wf(),
            plane_scale.units > 0,
        ensures
            final(self).wf(),
            final(self).spec_width() == old(self).spec_width(),
            final(self).spec_height() == old(self).spec_height(),
            forall|px: int, py: int| old(self).in_bounds(px, py) ==> #[trigger] final(self).pixel(px, py) == (
                if in_spot(*paint_settings, old(self).spec_width(), plane_scale, x as int, y as int, px, py) {
                    paint_settings.colour
                } else {
                    old(self).pixel(px, py)
                }),
    {
        let ghost settings = *paint_settings;
        let ghost w = self.spec_width();
        if self.width == 0 || self.height == 0 {
            return;
        }
        let s: u128 = plane_scale.units as u128;
        proof {
            assert(paint_settings.radius.units * self.width <= 0xffff_ffff * 0xffff_ffff) by (nonlinear_arith)
                requires paint_settings.radius.units <= 0xffff_ffff, self.width <= 0xffff_ffff;
            assert((paint_settings.radius.units * self.width) * (paint_settings.radius.units * self.width)
                <= (0xffff_ffff * 0xffff_ffff) * (0xffff_ffff * 0xffff_ffff)) by (nonlinear_arith)
                requires
                    0 <= paint_settings.radius.units * self.width <= 0xffff_ffff * 0xffff_ffff,
            ;
        }
        let rw: u128 = paint_settings.radius.units as u128 * self.width as u128;
        let bound: u128 = rw * rw;
        let radius: u128 = rw / s;
        let cx: u128 = x as u128;
        let cy: u128 = y as u128;
        let min_x: u128 = if cx >= radius { cx - radius } else { 0 };
        let min_y: u128 = if cy >= radius { cy - radius } else { 0 };
        let max_x: u128 = if cx + radius < self.width as u128 - 1 { cx + radius } else { self.width as u128 - 1 };
        let max_y: u128 = if cy + radius < self.height as u128 - 1 { cy + radius } else { self.height as u128 - 1 };
        let colour = paint_settings.colour;
        proof {
            assert forall|px: int, py: int| #[trigger] old(self).in_bounds(px, py)
                && in_spot(settings, w, plane_scale, x as int, y as int, px, py)
                implies min_x <= px <= max_x && min_y <= py <= max_y by {
                lemma_spot_box(s as int, rw as int, px - x, py - y);
                lemma_spot_box(s as int, rw as int, py - y, px - x);
                assert((py - y) * (py - y) + (px - x) * (px - x) == (px - x) * (px - x) + (py - y) * (py - y));
            }
        }
        let mut xv: u128 = min_x;
        while xv <= max_x
            invariant
                self.wf(),
                self.spec_width() == w,
                self.spec_height() == old(self).spec_height(),
                w == old(self).spec_width(),
                settings == *paint_settings,
                colour == settings.colour,
                s == plane_scale.units,
                cx == x,
                cy == y,
                bound == (settings.radius.units * w) * (settings.radius.units * w),
                max_x < w,
                max_y < self.spec_height(),
                min_x <= xv,
                forall|px: int, py: int| #[trigger] old(self).in_bounds(px, py)
                    && in_spot(settings, w, plane_scale, x as int, y as int, px, py)
                    ==> min_x <= px <= max_x && min_y <= py <= max_y,
                forall|px: int, py: int| #[trigger] old(self).in_bounds(px, py) ==> self.pixel(px, py) == (
                    if in_spot(settings, w, plane_scale, x as int, y as int, px, py) && px < xv {
                        colour
                    } else {
                        old(self).pixel(px, py)
                    }),
            decreases max_x + 1 - xv,
        {
            let mut yv: u128 = min_y;
            while yv <= max_y
                invariant
                    self.wf(),
                    self.spec_width() == w,
                    self.spec_height() == old(self).spec_height(),
                    w == old(self).spec_width(),
                    settings == *paint_settings,
                    colour == settings.colour,
                    s == plane_scale.units,
                    cx == x,
                    cy == y,
                    bound == (settings.radius.units * w) * (settings.radius.units * w),
                    max_x < w,
                    max_y < self.spec_height(),
                    min_x <= xv <= max_x,
                    min_y <= yv,
                    forall|px: int, py: int| #[trigger] old(self).in_bounds(px, py)
                        && in_spot(settings, w, plane_scale, x as int, y as int, px, py)
                        ==> min_x <= px <= max_x && min_y <= py <= max_y,
                    forall|px: int, py: int| #[trigger] old(self).in_bounds(px, py) ==> self.pixel(px, py) == (
                        if in_spot(settings, w, plane_scale, x as int, y as int, px, py)
                            && (px < xv || (px == xv && py < yv)) {
                            colour
                        } else {
                            old(self).pixel(px, py)
                        }),
                decreases max_y + 1 - yv,
            {
                let d: u128 = if xv >= cx { xv - cx } else { cx - xv };
                let e: u128 = if yv >= cy { yv - cy } else { cy - yv };
                let inside = spot_test(s, d, e, bound);
                proof {
                    assert(d * d == (xv - x) * (xv - x) && e * e == (yv - y) * (yv - y)) by (nonlinear_arith)
                        requires
                            d == (if xv >= x { xv - x } else { x - xv }),
                            e == (if yv >= y { yv - y } else { y - yv }),
                    ;
                    assert(inside == in_spot(settings, w, plane_scale, x as int, y as int, xv as int, yv as int));
                }
                let ghost prev = *self;
                if inside {
                    let _ = self.set_color_at(xv as u32, yv as u32, colour);
                }
                proof {
                    assert forall|px: int, py: int| #[trigger] old(self).in_bounds(px, py) implies self.pixel(px, py) == (
                        if in_spot(settings, w, plane_scale, x as int, y as int, px, py)
                            && (px < xv || (px == xv && py < yv + 1)) {
                            colour
                        } else {
                            old(self).pixel(px, py)
                        }) by {
                        assert(prev.in_bounds(px, py));
                    }
                }
                yv = yv + 1;
            }
            xv = xv + 1;
        }
    }
}

/// The grid point at column `px` and row `py`, where both fit in `i32`.
pub open spec fn grid_point(px: int, py: int) -> Point {
    Point(px as i32, py as i32)
}

/// `(px, py)` can be named by a grid point.
pub open spec fn addressable(px: int, py: int) -> bool {
    0 <= px <= i32::MAX && 0 <= py <= i32::MAX
}

/// The colour of a pixel that held `before`, once the records are painted in order
/// with `colour` and each record's coverage as alpha: the last record at `p` wins.
pub open spec fn painted_colour(records: Seq<Coverage>, colour: Colour, p: Point, before: Colour) -> Colour
    decreases records.len(),
{
    if records.len() == 0 {
        before
    } else if records.last().point == p {
        Colour { a: alpha_of(records.last().intensity as int) as u8, ..colour }
    } else {
        painted_colour(records.drop_last(), colour, p, before)
    }
}

/// The grid points of a stroke given in canvas coordinates.
pub open spec fn stroke_ends(x1: usize, y1: usize, x2: usize, y2: usize) -> (Point, Point) {
    (Point(x1 as i32, y1 as i32), Point(x2 as i32, y2 as i32))
}

impl Canvas {
    /// The brush radius scaled to this canvas, in sub-pixel units:
    /// `radius * width / plane_scale`.
    pub fn scale_radius(&self, paint_settings: &PaintSettings, plane_scale: Length) -> (r: u128)
        requires
            plane_scale.units > 0,
        ensures
            r == scaled_radius(paint_settings.radius, self.spec_width(), plane_scale),
    {
        proof {
            assert(paint_settings.radius.units * self.width * 256 <= 0xffff_ffff * 0xffff_ffff * 256) by (nonlinear_arith)
                requires paint_settings.radius.units <= 0xffff_ffff, self.width <= 0xffff_ffff;
            assert(paint_settings.radius.units * self.width * 256 >= 0) by (nonlinear_arith);
        }
        paint_settings.radius.units as u128 * self.width as u128 * 256 / plane_scale.units as u128
    }

    /// Paints the stroke of `thick_line_points` whose half-width is the brush radius
    /// scaled to the canvas; stroke pixels outside the canvas are dropped.
    pub fn draw_thick_line(
        &mut self,
        x1: usize,
        y1: usize,
        x2: usize,
        y2: usize,
        paint_settings: &PaintSettings,
        plane_scale: Length,
    )
        requires
            old(self).wf(),
            plane_scale.units > 0,
            x1 <= COORD_LIMIT && y1 <= COORD_LIMIT && x2 <= COORD_LIMIT && y2 <= COORD_LIMIT,
            scaled_radius(paint_settings.radius, old(self).spec_width(), plane_scale) <= u32::MAX,
        ensures
            final(self).wf(),
            final(self).spec_width() == old(self).spec_width(),
            final(self).spec_height() == old(self).spec_height(),
            forall|px: int, py: int| old(self).in_bounds(px, py) ==> #[trigger] final(self).pixel(px, py) == (
                if addressable(px, py) && thick_line_points(
                    stroke_ends(x1, y1, x2, y2).0,
                    stroke_ends(x1, y1, x2, y2).1,
                    Length { units: scaled_radius(paint_settings.radius, old(self).spec_width(), plane_scale) as u32 },
                ).contains(grid_point(px, py)) {
                    paint_settings.colour
                } else {
                    old(self).pixel(px, py)
                }),
    {
        let start_point = Point(x1 as i32, y1 as i32);
        let end_point = Point(x2 as i32, y2 as i32);
        let radius = Length { units: self.scale_radius(paint_settings, plane_scale) as u32 };
        let mut thick_line = ThickLine::new(start_point, end_point, radius);
        let points = thick_line.collect_points();
        let colour = paint_settings.colour;
        let mut i: usize = 0;
        while i < points.len()
            invariant
                self.wf(),
                self.spec_width() == old(self).spec_width(),
                self.spec_height() == old(self).spec_height(),
                i <= points@.len(),
                forall|px: int, py: int| #[trigger] old(self).in_bounds(px, py) ==> self.pixel(px, py) == (
                    if addressable(px, py) && points@.subrange(0, i as int).contains(grid_point(px, py)) {
                        colour
                    } else {
                        old(self).pixel(px, py)
                    }),
            decreases points@.len() - i,
        {
            let point = points[i];
            let ghost prev = *self;
            if point.0 >= 0 && point.1 >= 0 {
                let _ = self.set_color_at(point.0 as u32, point.1 as u32, colour);
            }
            proof {
                assert(points@.subrange(0, i as int + 1) =~= points@.subrange(0, i as int).push(point));
                assert forall|px: int, py: int| #[trigger] old(self).in_bounds(px, py) implies self.pixel(px, py) == (
                    if addressable(px, py) && points@.subrange(0, i as int + 1).contains(grid_point(px, py)) {
                        colour
                    } else {
                        old(self).pixel(px, py)
                    }) by {
                    assert(prev.in_bounds(px, py));
                    let sub = points@.subrange(0, i as int);
                    if addressable(px, py) {
                        assert(sub.push(point).contains(grid_point(px, py)) == (sub.contains(grid_point(px, py)) || point == grid_point(px, py))) by {
                            if point == grid_point(px, py) {
                                assert(sub.push(point)[sub.len() as int] == point);
                            }
                            if sub.push(point).contains(grid_point(px, py)) && point != grid_point(px, py) {
                                let k = choose|k: int| 0 <= k < sub.push(point).len() && sub.push(point)[k] == grid_point(px, py);
                                assert(sub[k] == grid_point(px, py));
                            }
                            if sub.contains(grid_point(px, py)) {
                                let k = choose|k: int| 0 <= k < sub.len() && sub[k] == grid_point(px, py);
                                assert(sub.push(point)[k] == grid_point(px, py));
                            }
                        }
                    }
                }
            }
            i = i + 1;
        }
        proof {
            assert(points@.subrange(0, points@.len() as int) =~= points@);
        }
    }

    /// Paints the antialiased stroke of `antialiased_coverage` whose width is twice the
    /// brush radius scaled to the canvas: each covered pixel takes the brush colour
    /// with its coverage as alpha, replacing what was there; pixels outside the
    /// canvas are dropped.
    pub fn draw_thick_line_antialias(
        &mut self,
        x1: usize,
        y1: usize,
        x2: usize,
        y2: usize,
        paint_settings: &PaintSettings,
        plane_scale: Length,
    )
        requires
            old(self).wf(),
            plane_scale.units > 0,
            x1 <= COORD_LIMIT && y1 <= COORD_LIMIT && x2 <= COORD_LIMIT && y2 <= COORD_LIMIT,
            2 * scaled_radius(paint_settings.radius, old(self).spec_width(), plane_scale) <= u32::MAX,
        ensures
            final(self).wf(),
            final(self).spec_width() == old(self).spec_width(),
            final(self).spec_height() == old(self).spec_height(),
            forall|px: int, py: int| old(self).in_bounds(px, py) ==> #[trigger] final(self).pixel(px, py) == (
                if addressable(px, py) {
                    painted_colour(
                        antialiased_coverage(
                            stroke_ends(x1, y1, x2, y2).0,
                            stroke_ends(x1, y1, x2, y2).1,
                            Length { units: (2 * scaled_radius(paint_settings.radius, old(self).spec_width(), plane_scale)) as u32 },
                        ),
                        paint_settings.colour,
                        grid_point(px, py),
                        old(self).pixel(px, py),
                    )
                } else {
                    old(self).pixel(px, py)
                }),
    {
        let start_point = Point(x1 as i32, y1 as i32);
        let end_point = Point(x2 as i32, y2 as i32);
        let width = Length { units: (2 * self.scale_radius(paint_settings, plane_scale)) as u32 };
        let records = draw_antialiased_thick_line(start_point, end_point, width);
        let colour = paint_settings.colour;
        let mut i: usize = 0;
        while i < records.len()
            invariant
                self.wf(),
                self.spec_width() == old(self).spec_width(),
                self.spec_height() == old(self).spec_height(),
                i <= records@.len(),
                records@ == antialiased_coverage(start_point, end_point, width),
                forall|px: int, py: int| #[trigger] old(self).in_bounds(px, py) ==> self.pixel(px, py) == (
                    if addressable(px, py) {
                        painted_colour(records@.subrange(0, i as int), colour, grid_point(px, py), old(self).pixel(px, py))
                    } else {
                        old(self).pixel(px, py)
                    }),
            decreases records@.len() - i,
        {
            let record = records[i];
            proof {
                crate::antialias_thick_line::lemma_antialiased_coverage_law(start_point, end_point, width, i as int, i as int);
            }
            let alpha: u8 = ((record.intensity * 255 + 128) / 256) as u8;
            let ghost prev = *self;
            if record.point.0 >= 0 && record.point.1 >= 0 {
                let _ = self.set_color_at(record.point.0 as u32, record.point.1 as u32, colour.with_alpha(alpha));
            }
            proof {
                let sub = records@.subrange(0, i as int);
                let sub2 = records@.subrange(0, i as int + 1);
                assert(sub2.drop_last() =~= sub);
                assert(sub2.last() == record);
                assert forall|px: int, py: int| #[trigger] old(self).in_bounds(px, py) implies self.pixel(px, py) == (
                    if addressable(px, py) {
                        painted_colour(sub2, colour, grid_point(px, py), old(self).pixel(px, py))
                    } else {
                        old(self).pixel(px, py)
                    }) by {
                    assert(prev.in_bounds(px, py));
                }
            }
            i = i + 1;
        }
        proof {
            assert(records@.subrange(0, records@.len() as int) =~= records@);
        }
    }
}

} // verus!
