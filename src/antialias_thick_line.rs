//! Antialiased strokes (Gupta-Sproull): the coverage of each pixel near a line,
//! from its perpendicular distance to the line.

use vstd::prelude::*;
use crate::objects::{abs, is_nearest_ratio, nearest_ratio, nearest_ratio_exec, Length, Point};
use vstd::arithmetic::div_mod::{
    lemma_fundamental_div_mod,
    lemma_fundamental_div_mod_converse,
    lemma_mod_bound,
};

verus! {

/// Full coverage of a pixel, in the units of `Coverage::intensity`.
pub const FULL_COVERAGE: u32 = 256;

/// A pixel of an antialiased stroke and how much of it the stroke covers, in units
/// of `1 / FULL_COVERAGE`.
#[derive(Debug, Copy, Clone, PartialEq, Eq, Structural)]
pub struct Coverage {
    pub point: Point,
    pub intensity: u32,
}

pub open spec fn clamp(v: int, lo: int, hi: int) -> int {
    if v < lo { lo } else if v > hi { hi } else { v }
}

/// The squared length of the line from `start` to `end`.
pub open spec fn len_sq(start: Point, end: Point) -> int {
    (end.0 - start.0) * (end.0 - start.0) + (end.1 - start.1) * (end.1 - start.1)
}

/// The distance from `p` to the infinite line through `start` and `end`, times the
/// length of that line.
pub open spec fn distance_num(start: Point, end: Point, p: Point) -> int {
    abs((end.0 - start.0) * (p.1 - start.1) - (end.1 - start.1) * (p.0 - start.0))
}

/// Half the stroke width, in sub-pixel units.
pub open spec fn half_units(width: Length) -> int {
    width.units as int / 2
}

/// `p` lies closer than half the width plus one pixel to the line (a zero-length line
/// has distance zero everywhere).
pub open spec fn is_covered(start: Point, end: Point, width: Length, p: Point) -> bool {
    let s = len_sq(start, end);
    let m = distance_num(start, end, p);
    s == 0 || 65536 * m * m < (half_units(width) + 256) * (half_units(width) + 256) * s
}

/// The distance from `p` to the line in sub-pixel units, rounded to nearest.
pub open spec fn distance_units(start: Point, end: Point, p: Point) -> int {
    let s = len_sq(start, end);
    if s == 0 { 0 } else { nearest_ratio(256 * distance_num(start, end, p), s) }
}

/// The coverage at distance `d` from the centre of a stroke of half-width `half`,
/// both in sub-pixel units: `half - d + 1/2` pixels, clamped to `[0, 1]` pixel.
pub open spec fn intensity_of(half: int, d: int) -> int {
    clamp(half + 128 - d, 0, 256)
}

/// The coverage of `p` by the stroke.
pub open spec fn coverage_of(start: Point, end: Point, width: Length, p: Point) -> int {
    intensity_of(half_units(width), distance_units(start, end, p))
}

/// The stroke seen along its major axis, from its lower end: whether `x` and `y`
/// trade places, then the two endpoints in that frame.
pub open spec fn frame(start: Point, end: Point) -> (bool, int, int, int, int) {
    let steep = abs(end.1 - start.1) > abs(end.0 - start.0);
    let (ax, ay, bx, by) = if steep {
        (start.1 as int, start.0 as int, end.1 as int, end.0 as int)
    } else {
        (start.0 as int, start.1 as int, end.0 as int, end.1 as int)
    };
    if ax > bx { (steep, bx, by, ax, ay) } else { (steep, ax, ay, bx, by) }
}

/// How many pixels on each side of the centre are examined: `ceil(half_width + 1.5)`.
pub open spec fn window(width: Length) -> int {
    (half_units(width) + 384 + 255) / 256
}

/// The offset of the centre of the stroke along the minor axis after `k` steps: the
/// integer nearest to `k * dy / dx`, halves rounded up.
pub open spec fn centre_offset(k: int, dx: int, dy: int) -> int {
    if dx == 0 { 0 } else { (2 * k * dy + dx) / (2 * dx) }
}

/// The `j`-th pixel examined at step `k`.
pub open spec fn candidate(start: Point, end: Point, width: Length, k: int, j: int) -> Point {
    let (steep, x0, y0, x1, y1) = frame(start, end);
    let x = x0 + k;
    let y = y0 + centre_offset(k, x1 - x0, y1 - y0) + j - window(width);
    if steep { Point(y as i32, x as i32) } else { Point(x as i32, y as i32) }
}

/// The record for the `j`-th pixel examined at step `k`, if the stroke covers it.
pub open spec fn cell(start: Point, end: Point, width: Length, k: int, j: int) -> Seq<Coverage> {
    let p = candidate(start, end, width, k, j);
    if is_covered(start, end, width, p) {
        seq![Coverage { point: p, intensity: coverage_of(start, end, width, p) as u32 }]
    } else {
        Seq::empty()
    }
}

/// The records of the first `j` pixels examined at step `k`.
pub open spec fn row_prefix(start: Point, end: Point, width: Length, k: int, j: int) -> Seq<Coverage>
    decreases j,
{
    if j <= 0 {
        Seq::empty()
    } else {
        row_prefix(start, end, width, k, j - 1) + cell(start, end, width, k, j - 1)
    }
}

/// The records of the first `k` steps.
pub open spec fn rows(start: Point, end: Point, width: Length, k: int) -> Seq<Coverage>
    decreases k,
{
    if k <= 0 {
        Seq::empty()
    } else {
        rows(start, end, width, k - 1) + row_prefix(start, end, width, k - 1, 2 * window(width) + 1)
    }
}

/// Every record of the antialiased stroke of `width` from `start` to `end`.
pub open spec fn antialiased_coverage(start: Point, end: Point, width: Length) -> Seq<Coverage> {
    let (steep, x0, y0, x1, y1) = frame(start, end);
    rows(start, end, width, x1 - x0 + 1)
}

/// Whether the stroke covers `p`, and how much.
fn pixel_coverage(start: Point, end: Point, width: Length, p: Point) -> (r: Option<u32>)
    requires
        start.is_bounded(),
        end.is_bounded(),
    ensures
        r is Some <==> is_covered(start, end, width, p),
        r matches Some(v) ==> v == coverage_of(start, end, width, p),
{
    let dx: i128 = end.0 as i128 - start.0 as i128;
    let dy: i128 = end.1 as i128 - start.1 as i128;
    proof {
        assert(dx * dx <= 0x1000000000000000) by (nonlinear_arith)
            requires -0x40000000 <= dx <= 0x40000000;
        assert(dy * dy <= 0x1000000000000000) by (nonlinear_arith)
            requires -0x40000000 <= dy <= 0x40000000;
        assert(dx * dx >= 0 && dy * dy >= 0) by (nonlinear_arith);
    }
    let s: u128 = (dx * dx + dy * dy) as u128;
    let half: u128 = (width.units / 2) as u128;
    if s == 0 {
        let v: u32 = if half + 128 > 256 { 256 } else { (half + 128) as u32 };
        return Some(v);
    }
    let px: i128 = p.0 as i128 - start.0 as i128;
    let py: i128 = p.1 as i128 - start.1 as i128;
    proof {
        assert(-0x40000000 * 0x100000000 <= dx * py <= 0x40000000 * 0x100000000) by (nonlinear_arith)
            requires -0x40000000 <= dx <= 0x40000000, -0x100000000 <= py <= 0x100000000;
        assert(-0x40000000 * 0x100000000 <= dy * px <= 0x40000000 * 0x100000000) by (nonlinear_arith)
            requires -0x40000000 <= dy <= 0x40000000, -0x100000000 <= px <= 0x100000000;
    }
    let cross: i128 = dx * py - dy * px;
    let m: u128 = if cross < 0 { (-cross) as u128 } else { cross as u128 };
    let a: u128 = 256 * m;
    let hw: u128 = half + 256;
    proof {
        assert(hw * hw <= 0x100000000 * 0x100000000) by (nonlinear_arith)
            requires hw <= 0x100000000;
        assert(hw * hw * s <= 0x100000000 * 0x100000000 * 0x2000000000000000) by (nonlinear_arith)
            requires hw * hw <= 0x100000000 * 0x100000000, s <= 0x2000000000000000;
    }
    let bound: u128 = hw * hw * s;
    let covered = match a.checked_mul(a) {
        None => false,
        Some(a2) => a2 < bound,
    };
    proof {
        assert(a * a == 65536 * m * m) by (nonlinear_arith)
            requires a == 256 * m;
    }
    if !covered {
        return None;
    }
    proof {
        assert(4 * a * a <= u128::MAX) by (nonlinear_arith)
            requires a * a < hw * hw * s, hw * hw * s <= 0x100000000 * 0x100000000 * 0x2000000000000000;
    }
    let d = nearest_ratio_exec(a, s);
    assert(s == len_sq(start, end));
    assert(m == distance_num(start, end, p));
    assert(d == distance_units(start, end, p));
    let v: i128 = half as i128 + 128 - d as i128;
    let clamped: u32 = if v < 0 { 0 } else if v > 256 { 256 } else { v as u32 };
    Some(clamped)
}

/// The offset of the centre of the stroke after `k` steps, and a bound on it.
fn centre_offset_exec(k: i64, dx: i64, dy: i64) -> (r: i64)
    requires
        0 <= k <= dx <= 0x4000_0000,
        -dx <= dy <= dx,
    ensures
        r == centre_offset(k as int, dx as int, dy as int),
        -dx - 1 <= r <= dx + 1,
{
    if dx == 0 {
        return 0;
    }
    proof {
        assert(0 <= 2 * k * (dy + dx) <= 2 * 0x4000_0000 * 0x8000_0000) by (nonlinear_arith)
            requires 0 <= k <= 0x4000_0000, 0 <= dy + dx <= 0x8000_0000;
    }
    let n: i64 = 2 * k * (dy + dx) + dx;
    let q: i64 = n / (2 * dx);
    proof {
        let d = 2 * dx;
        let x = 2 * k * dy + dx;
        lemma_fundamental_div_mod(x as int, d as int);
        lemma_mod_bound(x as int, d as int);
        let qq = x / d;
        let rr = x % d;
        assert(n == (qq + k) * d + rr) by (nonlinear_arith)
            requires
                x == d * qq + rr,
                n == 2 * k * (dy + dx) + dx,
                x == 2 * k * dy + dx,
                d == 2 * dx,
        ;
        lemma_fundamental_div_mod_converse(n as int, d as int, qq + k, rr);
        assert(-dx - 1 <= qq <= dx + 1) by (nonlinear_arith)
            requires
                x == d * qq + rr,
                0 <= rr < d,
                d == 2 * dx,
                dx > 0,
                x == 2 * k * dy + dx,
                0 <= k <= dx,
                -dx <= dy <= dx,
        ;
    }
    q - k
}

/// The pixels near the line from `start` to `end` that a stroke of `width` covers,
/// with their coverage, `FULL_COVERAGE` for a whole pixel. Along the major axis,
/// from the lower end, each step examines the `2 * window + 1` pixels centred on
/// the line; a pixel is kept when its distance `d` to the line is below
/// `width / 2 + 1` pixel, and covered `clamp(width / 2 - d + 1/2, 0, 1)`.
pub fn draw_antialiased_thick_line(start: Point, end: Point, width: Length) -> (r: Vec<Coverage>)
    requires
        start.is_bounded(),
        end.is_bounded(),
    ensures
        r@ == antialiased_coverage(start, end, width),
{
    let mut x0: i64 = start.0 as i64;
    let mut y0: i64 = start.1 as i64;
    let mut x1: i64 = end.0 as i64;
    let mut y1: i64 = end.1 as i64;
    let adx: i64 = if x1 >= x0 { x1 - x0 } else { x0 - x1 };
    let ady: i64 = if y1 >= y0 { y1 - y0 } else { y0 - y1 };
    let steep = ady > adx;
    if steep {
        let t = x0;
        x0 = y0;
        y0 = t;
        let t = x1;
        x1 = y1;
        y1 = t;
    }
    if x0 > x1 {
        let t = x0;
        x0 = x1;
        x1 = t;
        let t = y0;
        y0 = y1;
        y1 = t;
    }
    assert(frame(start, end) == (steep, x0 as int, y0 as int, x1 as int, y1 as int));
    let delta_x: i64 = x1 - x0;
    let delta_y: i64 = y1 - y0;
    let half: i64 = (width.units / 2) as i64;
    let range: i64 = (half + 384 + 255) / 256;
    let mut out: Vec<Coverage> = Vec::new();
    let mut k: i64 = 0;
    while k <= delta_x
        invariant
            frame(start, end) == (steep, x0 as int, y0 as int, x1 as int, y1 as int),
            start.is_bounded(),
            end.is_bounded(),
            delta_x == x1 - x0,
            delta_y == y1 - y0,
            0 <= delta_x <= 0x4000_0000,
            -delta_x <= delta_y <= delta_x,
            -0x2000_0000 <= y0 <= 0x2000_0000,
            -0x2000_0000 <= x0 <= 0x2000_0000,
            range == window(width),
            0 <= range <= 0x80_0003,
            0 <= k <= delta_x + 1,
            out@ == rows(start, end, width, k as int),
        decreases delta_x + 1 - k,
    {
        let c = centre_offset_exec(k, delta_x, delta_y);
        let mut j: i64 = 0;
        while j <= 2 * range
            invariant
                frame(start, end) == (steep, x0 as int, y0 as int, x1 as int, y1 as int),
                start.is_bounded(),
                end.is_bounded(),
                delta_x == x1 - x0,
                delta_y == y1 - y0,
                0 <= delta_x <= 0x4000_0000,
                -0x2000_0000 <= y0 <= 0x2000_0000,
                -0x2000_0000 <= x0 <= 0x2000_0000,
                range == window(width),
                0 <= range <= 0x80_0003,
                0 <= k <= delta_x,
                c == centre_offset(k as int, delta_x as int, delta_y as int),
                -delta_x - 1 <= c <= delta_x + 1,
                0 <= j <= 2 * range + 1,
                out@ == rows(start, end, width, k as int) + row_prefix(start, end, width, k as int, j as int),
            decreases 2 * range + 1 - j,
        {
            let x: i64 = x0 + k;
            let y: i64 = y0 + c + j - range;
            let p = if steep { Point(y as i32, x as i32) } else { Point(x as i32, y as i32) };
            assert(p == candidate(start, end, width, k as int, j as int));
            let ghost before = out@;
            match pixel_coverage(start, end, width, p) {
                Some(intensity) => {
                    out.push(Coverage { point: p, intensity });
                },
                None => {},
            }
            assert(out@ =~= rows(start, end, width, k as int) + row_prefix(start, end, width, k as int, j as int + 1));
            j = j + 1;
        }
        assert(rows(start, end, width, k as int + 1) == rows(start, end, width, k as int) + row_prefix(start, end, width, k as int, 2 * window(width) + 1));
        k = k + 1;
    }
    out
}

/// What holds of every record of an antialiased stroke.
pub open spec fn is_sound_record(start: Point, end: Point, width: Length, c: Coverage) -> bool {
    &&& is_covered(start, end, width, c.point)
    &&& c.intensity == coverage_of(start, end, width, c.point)
    &&& c.intensity <= FULL_COVERAGE
}

proof fn lemma_row_prefix_sound(start: Point, end: Point, width: Length, k: int, j: int)
    ensures
        forall|i: int| 0 <= i < row_prefix(start, end, width, k, j).len()
            ==> is_sound_record(start, end, width, #[trigger] row_prefix(start, end, width, k, j)[i]),
    decreases j,
{
    if j > 0 {
        lemma_row_prefix_sound(start, end, width, k, j - 1);
        let a = row_prefix(start, end, width, k, j - 1);
        let b = cell(start, end, width, k, j - 1);
        assert forall|i: int| 0 <= i < (a + b).len() implies is_sound_record(start, end, width, #[trigger] (a + b)[i]) by {
            if i >= a.len() {
                assert((a + b)[i] == b[i - a.len()]);
            } else {
                assert((a + b)[i] == a[i]);
            }
        }
    }
}

proof fn lemma_rows_sound(start: Point, end: Point, width: Length, k: int)
    ensures
        forall|i: int| 0 <= i < rows(start, end, width, k).len()
            ==> is_sound_record(start, end, width, #[trigger] rows(start, end, width, k)[i]),
    decreases k,
{
    if k > 0 {
        lemma_rows_sound(start, end, width, k - 1);
        lemma_row_prefix_sound(start, end, width, k - 1, 2 * window(width) + 1);
        let a = rows(start, end, width, k - 1);
        let b = row_prefix(start, end, width, k - 1, 2 * window(width) + 1);
        assert forall|i: int| 0 <= i < (a + b).len() implies is_sound_record(start, end, width, #[trigger] (a + b)[i]) by {
            if i >= a.len() {
                assert((a + b)[i] == b[i - a.len()]);
            } else {
                assert((a + b)[i] == a[i]);
            }
        }
    }
}

/// Coverage never grows with the distance from the line.
pub proof fn lemma_coverage_monotone(start: Point, end: Point, width: Length, p: Point, q: Point)
    requires
        distance_num(start, end, p) <= distance_num(start, end, q),
    ensures
        coverage_of(start, end, width, p) >= coverage_of(start, end, width, q),
{
    let s = len_sq(start, end);
    assert(s >= 0) by (nonlinear_arith)
        requires s == len_sq(start, end);
    if s > 0 {
        let m1 = 256 * distance_num(start, end, p);
        let m2 = 256 * distance_num(start, end, q);
        let n1 = nearest_ratio(m1, s);
        let n2 = nearest_ratio(m2, s);
        lemma_nearest_ratio_exists(m1, s);
        lemma_nearest_ratio_exists(m2, s);
        assert(m1 * m1 * s <= m2 * m2 * s) by (nonlinear_arith)
            requires 0 <= m1 <= m2, s > 0;
        crate::objects::lemma_nearest_ratio_monotone(n1, m1, s, n2, m2, s);
    }
}

proof fn lemma_nearest_ratio_exists(m: int, s: int)
    requires
        m >= 0,
        s > 0,
    ensures
        is_nearest_ratio(nearest_ratio(m, s), m, s),
{
    let n = crate::objects::lemma_nearest_ratio_witness(m, s);
}

/// Every pixel of an antialiased stroke lies closer to the line than half the width
/// plus one pixel (farther pixels are never produced), its coverage lies between
/// none and `FULL_COVERAGE`, and of two pixels the one farther from the line is
/// covered no more than the nearer.
pub proof fn lemma_antialiased_coverage_law(start: Point, end: Point, width: Length, i1: int, i2: int)
    requires
        0 <= i1 < antialiased_coverage(start, end, width).len(),
        0 <= i2 < antialiased_coverage(start, end, width).len(),
    ensures
        ({
            let r = antialiased_coverage(start, end, width);
            &&& is_covered(start, end, width, r[i1].point)
            &&& r[i1].intensity == coverage_of(start, end, width, r[i1].point)
            &&& 0 <= r[i1].intensity <= FULL_COVERAGE
            &&& distance_num(start, end, r[i1].point) <= distance_num(start, end, r[i2].point)
                ==> r[i1].intensity >= r[i2].intensity
        }),
{
    let (steep, x0, y0, x1, y1) = frame(start, end);
    lemma_rows_sound(start, end, width, x1 - x0 + 1);
    let r = antialiased_coverage(start, end, width);
    assert(is_sound_record(start, end, width, r[i1]));
    assert(is_sound_record(start, end, width, r[i2]));
    if distance_num(start, end, r[i1].point) <= distance_num(start, end, r[i2].point) {
        lemma_coverage_monotone(start, end, width, r[i1].point, r[i2].point);
    }
}

/// `p` lies no farther from the line through `start1` and `end1` than `q` from the
/// line through `start2` and `end2` (a zero-length line is at distance zero from
/// every pixel).
pub open spec fn no_farther(start1: Point, end1: Point, p: Point, start2: Point, end2: Point, q: Point) -> bool {
    let l1 = len_sq(start1, end1);
    let l2 = len_sq(start2, end2);
    let m1 = distance_num(start1, end1, p);
    let m2 = distance_num(start2, end2, q);
    if l1 == 0 {
        true
    } else if l2 == 0 {
        m1 == 0
    } else {
        m1 * m1 * l2 <= m2 * m2 * l1
    }
}

/// For one width, coverage never grows with the distance from the line, whichever
/// lines the two pixels are measured against.
pub proof fn lemma_coverage_monotone_across(
    start1: Point,
    end1: Point,
    start2: Point,
    end2: Point,
    width: Length,
    p: Point,
    q: Point,
)
    requires
        no_farther(start1, end1, p, start2, end2, q),
    ensures
        coverage_of(start1, end1, width, p) >= coverage_of(start2, end2, width, q),
{
    let l1 = len_sq(start1, end1);
    let l2 = len_sq(start2, end2);
    let m1 = 256 * distance_num(start1, end1, p);
    let m2 = 256 * distance_num(start2, end2, q);
    assert(l1 >= 0) by (nonlinear_arith)
        requires l1 == len_sq(start1, end1);
    assert(l2 >= 0) by (nonlinear_arith)
        requires l2 == len_sq(start2, end2);
    if l2 > 0 {
        lemma_nearest_ratio_exists(m2, l2);
    }
    if l1 > 0 {
        lemma_nearest_ratio_exists(m1, l1);
        if l2 == 0 {
            assert(m1 == 0);
            assert(is_nearest_ratio(0, 0, l1)) by (nonlinear_arith)
                requires l1 > 0;
            crate::objects::lemma_nearest_ratio_unique(0, 0, l1);
        } else {
            assert(m1 * m1 * l2 <= m2 * m2 * l1) by (nonlinear_arith)
                requires
                    m1 == 256 * distance_num(start1, end1, p),
                    m2 == 256 * distance_num(start2, end2, q),
                    distance_num(start1, end1, p) * distance_num(start1, end1, p) * l2
                        <= distance_num(start2, end2, q) * distance_num(start2, end2, q) * l1,
            ;
            crate::objects::lemma_nearest_ratio_monotone(nearest_ratio(m1, l1), m1, l1, nearest_ratio(m2, l2), m2, l2);
        }
    }
}

/// Of two antialiased strokes of one width, a pixel of the first that lies no farther
/// from its line than a pixel of the second from its own is covered no less.
pub proof fn lemma_antialiased_coverage_across(
    start1: Point,
    end1: Point,
    start2: Point,
    end2: Point,
    width: Length,
    i1: int,
    i2: int,
)
    requires
        0 <= i1 < antialiased_coverage(start1, end1, width).len(),
        0 <= i2 < antialiased_coverage(start2, end2, width).len(),
        no_farther(
            start1,
            end1,
            antialiased_coverage(start1, end1, width)[i1].point,
            start2,
            end2,
            antialiased_coverage(start2, end2, width)[i2].point,
        ),
    ensures
        antialiased_coverage(start1, end1, width)[i1].intensity >= antialiased_coverage(start2, end2, width)[i2].intensity,
{
    let (st1, a0, b0, a1, b1) = frame(start1, end1);
    let (st2, c0, d0, c1, d1) = frame(start2, end2);
    lemma_rows_sound(start1, end1, width, a1 - a0 + 1);
    lemma_rows_sound(start2, end2, width, c1 - c0 + 1);
    let r1 = antialiased_coverage(start1, end1, width);
    let r2 = antialiased_coverage(start2, end2, width);
    assert(is_sound_record(start1, end1, width, r1[i1]));
    assert(is_sound_record(start2, end2, width, r2[i2]));
    lemma_coverage_monotone_across(start1, end1, start2, end2, width, r1[i1].point, r2[i2].point);
}

} // verus!
