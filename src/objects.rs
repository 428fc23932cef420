//! Integer points, axes, signs, fixed-point lengths and perpendicular offsets.

use vstd::prelude::*;

verus! {

/// Sub-pixel units in one pixel of a [`Length`].
pub const SUBPIXELS: u32 = 256;

/// Largest absolute coordinate of a stroke endpoint: sums of points, offsets and
/// sweeps then stay within `i32`.
pub const COORD_LIMIT: i32 = 536870912;

/// An integer point on the pixel grid.
#[derive(Debug, Hash, Copy, Clone, PartialEq, Eq, Structural, PartialOrd, Ord)]
pub struct Point(pub i32, pub i32);

/// One of the two grid axes.
#[derive(Debug, Copy, Clone, PartialEq, Eq, Structural)]
pub enum Axis {
    X,
    Y,
}

/// A direction of travel along an axis.
#[derive(Debug, Copy, Clone, PartialEq, Eq, Structural, PartialOrd, Ord)]
pub enum Sign {
    Positive,
    Negative,
}

/// A non-negative length in units of `1 / SUBPIXELS` pixel.
#[derive(Debug, Copy, Clone, PartialEq, Eq, Structural)]
pub struct Length {
    pub units: u32,
}

/// Absolute value of an integer.
pub open spec fn abs(a: int) -> int {
    if a < 0 { -a } else { a }
}

/// Sign of travel from `a` to `b`: a tie counts as positive.
pub open spec fn sign_between(a: int, b: int) -> Sign {
    if b >= a { Sign::Positive } else { Sign::Negative }
}

/// `n` is the integer nearest to `m / sqrt(s)`, halves rounded up (for `m >= 0`, `s > 0`).
pub open spec fn is_nearest_ratio(n: int, m: int, s: int) -> bool {
    &&& n >= 0
    &&& (n == 0 || (2 * n - 1) * (2 * n - 1) * s <= 4 * m * m)
    &&& 4 * m * m < (2 * n + 1) * (2 * n + 1) * s
}

/// The integer nearest to `m / sqrt(s)`, halves rounded up.
pub open spec fn nearest_ratio(m: int, s: int) -> int {
    choose|n: int| is_nearest_ratio(n, m, s)
}

impl Point {
    /// Both coordinates lie within `COORD_LIMIT` of the origin.
    pub open spec fn is_bounded(self) -> bool {
        -COORD_LIMIT <= self.0 <= COORD_LIMIT && -COORD_LIMIT <= self.1 <= COORD_LIMIT
    }

    /// This point moved by `amount` along `axis`.
    pub open spec fn moved_along(self, axis: Axis, amount: int) -> Point {
        match axis {
            Axis::X => Point((self.0 + amount) as i32, self.1),
            Axis::Y => Point(self.0, (self.1 + amount) as i32),
        }
    }

    /// Both coordinates lie within `lim` of the origin.
    pub open spec fn within(self, lim: int) -> bool {
        -lim <= self.0 <= lim && -lim <= self.1 <= lim
    }

    /// The coordinate of this point along `axis`.
    pub open spec fn coord(self, axis: Axis) -> int {
        match axis {
            Axis::X => self.0 as int,
            Axis::Y => self.1 as int,
        }
    }

    /// This point moved by `amount` along `axis`.
    pub fn add_axis(&self, axis: Axis, amount: i32) -> (r: Point)
        requires
            i32::MIN <= self.coord(axis) + amount <= i32::MAX,
        ensures
            r == self.moved_along(axis, amount as int),
            r.coord(axis) == self.coord(axis) + amount,
            r.coord(axis.other_spec()) == self.coord(axis.other_spec()),
    {
        match axis {
            Axis::X => Point(self.0 + amount, self.1),
            Axis::Y => Point(self.0, self.1 + amount),
        }
    }

    /// Coordinate-wise sum.
    pub fn add(self, rhs: Point) -> (r: Point)
        requires
            i32::MIN <= self.0 + rhs.0 <= i32::MAX,
            i32::MIN <= self.1 + rhs.1 <= i32::MAX,
        ensures
            r == Point((self.0 + rhs.0) as i32, (self.1 + rhs.1) as i32),
    {
        Point(self.0 + rhs.0, self.1 + rhs.1)
    }

    /// Coordinate-wise difference.
    pub fn sub(self, rhs: Point) -> (r: Point)
        requires
            i32::MIN <= self.0 - rhs.0 <= i32::MAX,
            i32::MIN <= self.1 - rhs.1 <= i32::MAX,
        ensures
            r == Point((self.0 - rhs.0) as i32, (self.1 - rhs.1) as i32),
    {
        Point(self.0 - rhs.0, self.1 - rhs.1)
    }
}

impl Axis {
    pub open spec fn other_spec(&self) -> Axis {
        match self {
            Axis::X => Axis::Y,
            Axis::Y => Axis::X,
        }
    }

    /// The complementary axis.
    #[verifier::when_used_as_spec(other_spec)]
    pub fn other(&self) -> (r: Axis)
        ensures
            r == self.other_spec(),
    {
        match self {
            Axis::X => Axis::Y,
            Axis::Y => Axis::X,
        }
    }
}

impl Sign {
    /// `+1` or `-1`.
    pub open spec fn value(self) -> int {
        match self {
            Sign::Positive => 1,
            Sign::Negative => -1,
        }
    }

    pub open spec fn negate_spec(self) -> Sign {
        match self {
            Sign::Positive => Sign::Negative,
            Sign::Negative => Sign::Positive,
        }
    }

    /// The sign as the integer `+1` or `-1`.
    pub fn to_i32(self) -> (r: i32)
        ensures
            r == self.value(),
    {
        match self {
            Sign::Positive => 1,
            Sign::Negative => -1,
        }
    }

    /// The opposite sign.
    #[verifier::when_used_as_spec(negate_spec)]
    pub fn negate(self) -> (r: Sign)
        ensures
            r == self.negate_spec(),
            r.value() == -self.value(),
    {
        match self {
            Sign::Positive => Sign::Negative,
            Sign::Negative => Sign::Positive,
        }
    }
}

impl Length {
    /// A whole number of pixels.
    pub fn from_pixels(pixels: u32) -> (r: Length)
        requires
            pixels * SUBPIXELS <= u32::MAX,
        ensures
            r.units == pixels * SUBPIXELS,
    {
        Length { units: pixels * SUBPIXELS }
    }
}

pub proof fn lemma_square_le(a: int, b: int)
    requires
        0 <= a,
        0 <= b,
        a * a <= b * b,
    ensures
        a <= b,
{
    if a > b {
        assert(a * a > b * b) by (nonlinear_arith)
            requires
                a > b,
                b >= 0,
        ;
    }
}

/// Two roundings of ratios keep the order of the ratios.
pub proof fn lemma_nearest_ratio_monotone(n1: int, m1: int, s1: int, n2: int, m2: int, s2: int)
    requires
        s1 > 0,
        s2 > 0,
        is_nearest_ratio(n1, m1, s1),
        is_nearest_ratio(n2, m2, s2),
        m1 * m1 * s2 <= m2 * m2 * s1,
    ensures
        n1 <= n2,
{
    if n1 > n2 {
        let a = (2 * n1 - 1) * (2 * n1 - 1);
        let b = (2 * n2 + 1) * (2 * n2 + 1);
        assert(b <= a) by (nonlinear_arith)
            requires
                n1 >= n2 + 1,
                n2 >= 0,
                a == (2 * n1 - 1) * (2 * n1 - 1),
                b == (2 * n2 + 1) * (2 * n2 + 1),
        ;
        assert(a * s1 <= 4 * m1 * m1);
        assert(4 * m2 * m2 < b * s2);
        assert(false) by (nonlinear_arith)
            requires
                a * s1 <= 4 * m1 * m1,
                4 * m2 * m2 < b * s2,
                b <= a,
                s1 > 0,
                s2 > 0,
                m1 * m1 * s2 <= m2 * m2 * s1,
        ;
    }
}

pub proof fn lemma_nearest_ratio_unique(n: int, m: int, s: int)
    requires
        s > 0,
        is_nearest_ratio(n, m, s),
    ensures
        nearest_ratio(m, s) == n,
{
    let c = nearest_ratio(m, s);
    assert(is_nearest_ratio(c, m, s));
    lemma_nearest_ratio_monotone(n, m, s, c, m, s);
    lemma_nearest_ratio_monotone(c, m, s, n, m, s);
}

/// The integer nearest to `m / sqrt(s)`, halves rounded up.
pub fn nearest_ratio_exec(m: u128, s: u128) -> (n: u128)
    requires
        s > 0,
        4 * m * m <= u128::MAX,
    ensures
        n == nearest_ratio(m as int, s as int),
        is_nearest_ratio(n as int, m as int, s as int),
        n <= m,
{
    proof {
        assert(4 * m <= 4 * m * m || m == 0) by (nonlinear_arith);
        assert(m <= 0x8000000000000000) by (nonlinear_arith)
            requires 4 * m * m <= u128::MAX;
    }
    let m4: u128 = 4 * m * m;
    // Search for the last `n` with `n == 0 || (2n - 1)^2 * s <= 4m^2`.
    let mut lo: u128 = 0;
    let mut hi: u128 = m + 1;
    proof {
        assert(m4 < (2 * hi - 1) * (2 * hi - 1) * s) by (nonlinear_arith)
            requires
                hi == m + 1,
                m4 == 4 * m * m,
                s >= 1,
        ;
    }
    loop
        invariant
            s > 0,
            m4 == 4 * m * m,
            m4 <= u128::MAX,
            m <= 0x8000000000000000,
            lo < hi <= m + 1,
            lo == 0 || (2 * lo - 1) * (2 * lo - 1) * s <= m4,
            m4 < (2 * hi - 1) * (2 * hi - 1) * s,
        decreases hi - lo,
    {
        if hi - lo == 1 {
            proof {
                assert(is_nearest_ratio(lo as int, m as int, s as int));
                lemma_nearest_ratio_unique(lo as int, m as int, s as int);
            }
            return lo;
        }
        let mid: u128 = lo + (hi - lo) / 2;
        let t: u128 = 2 * mid - 1;
        let within = match t.checked_mul(t) {
            None => {
                proof {
                    assert(t * t * s >= t * t) by (nonlinear_arith)
                        requires s > 0;
                }
                false
            },
            Some(t2) => match t2.checked_mul(s) {
                None => false,
                Some(v) => v <= m4,
            },
        };
        if within {
            lo = mid;
        } else {
            hi = mid;
        }
    }
}

/// `c + sign * v` rounded to the nearest integer, halves away from zero, where `v >= 0`
/// has the nearest integer `n` (halves up) and `half` says whether `v` lies exactly
/// halfway between `n - 1` and `n`.
pub open spec fn shift_rounded(c: int, sign: int, n: int, half: bool) -> int {
    if !half {
        c + sign * n
    } else if sign > 0 {
        // c + n - 1/2 rounds up when positive, down otherwise.
        if c + n >= 1 { c + n } else { c + n - 1 }
    } else {
        // c - n + 1/2 rounds up when positive, down otherwise.
        if c - n >= 0 { c - n + 1 } else { c - n }
    }
}

/// `m / sqrt(s)` lies exactly halfway between two integers.
pub open spec fn is_half_ratio(m: int, s: int) -> bool {
    let n = nearest_ratio(m, s);
    n >= 1 && (2 * n - 1) * (2 * n - 1) * s == 4 * m * m
}

/// The integer nearest to `c + sign * m / sqrt(s)` (`sign` is `1` or `-1`), halves
/// away from zero.
pub open spec fn round_shift(c: int, sign: int, m: int, s: int) -> int {
    shift_rounded(c, sign, nearest_ratio(m, s), is_half_ratio(m, s))
}

/// The two points `start + distance * n` and `start - distance * n` for the unit
/// normal `n = (-dy, dx) / |(dx, dy)|` of the direction from `start` to `end`, each
/// coordinate rounded to the nearest integer, halves away from zero. A zero
/// direction gives `start` twice.
pub open spec fn perpendicular_points(start: Point, end: Point, distance: Length) -> (Point, Point) {
    let dx = end.0 - start.0;
    let dy = end.1 - start.1;
    let s = (dx * dx + dy * dy) * 65536;
    if s == 0 {
        (start, start)
    } else {
        let mx = abs(dy) * distance.units;
        let my = abs(dx) * distance.units;
        let sx: int = if dy > 0 { -1 } else { 1 };
        let sy: int = if dx < 0 { -1 } else { 1 };
        (
            Point(round_shift(start.0 as int, sx, mx, s) as i32, round_shift(start.1 as int, sy, my, s) as i32),
            Point(round_shift(start.0 as int, -sx, mx, s) as i32, round_shift(start.1 as int, -sy, my, s) as i32),
        )
    }
}

/// Whether `m / sqrt(s)`, whose nearest integer is `n`, lies exactly halfway.
fn is_half_exec(m: u128, s: u128, n: u128) -> (r: bool)
    requires
        s > 0,
        4 * m * m <= u128::MAX,
        is_nearest_ratio(n as int, m as int, s as int),
        n <= m,
    ensures
        r == (n >= 1 && (2 * n - 1) * (2 * n - 1) * s == 4 * m * m),
{
    if n == 0 {
        return false;
    }
    proof {
        assert(m <= 0x8000000000000000) by (nonlinear_arith)
            requires 4 * m * m <= u128::MAX;
    }
    let t: u128 = 2 * n - 1;
    proof {
        assert(t * t <= t * t * s) by (nonlinear_arith)
            requires s > 0;
        assert(4 * m <= 4 * m * m || m == 0) by (nonlinear_arith);
    }
    t * t * s == 4 * m * m
}

/// `shift_rounded` on machine integers.
fn shift_rounded_exec(c: i32, positive: bool, n: u128, half: bool) -> (r: i32)
    requires
        -COORD_LIMIT <= c <= COORD_LIMIT,
        n <= 0x100_0000,
        half ==> n >= 1,
    ensures
        r == shift_rounded(c as int, if positive { 1 } else { -1 }, n as int, half),
        c - n <= r <= c + n,
{
    let n: i32 = n as i32;
    if !half {
        if positive { c + n } else { c - n }
    } else if positive {
        if c + n >= 1 { c + n } else { c + n - 1 }
    } else {
        if c - n >= 0 { c - n + 1 } else { c - n }
    }
}

impl Point {
    /// The two points at `distance` from `self` along the normal of the direction
    /// from `self` to `point2`: the first on the side of `(-dy, dx)`, the second on
    /// the other, each coordinate rounded to the nearest integer, halves away from
    /// zero. A zero direction gives `self` twice.
    pub fn get_perpendicular_points(&self, point2: &Point, distance: Length) -> (r: (Point, Point))
        requires
            self.is_bounded(),
            point2.is_bounded(),
        ensures
            r == perpendicular_points(*self, *point2, distance),
            abs(r.0.0 - self.0) <= distance.units as int / 256 + 1,
            abs(r.0.1 - self.1) <= distance.units as int / 256 + 1,
            abs(r.1.0 - self.0) <= distance.units as int / 256 + 1,
            abs(r.1.1 - self.1) <= distance.units as int / 256 + 1,
    {
        let dx: i64 = point2.0 as i64 - self.0 as i64;
        let dy: i64 = point2.1 as i64 - self.1 as i64;
        let adx: u128 = if dx < 0 { (-dx) as u128 } else { dx as u128 };
        let ady: u128 = if dy < 0 { (-dy) as u128 } else { dy as u128 };
        let q: u128 = distance.units as u128;
        proof {
            assert(adx * adx <= 0x1000000000000000) by (nonlinear_arith)
                requires adx <= 0x40000000;
            assert(ady * ady <= 0x1000000000000000) by (nonlinear_arith)
                requires ady <= 0x40000000;
        }
        let len_sq: u128 = adx * adx + ady * ady;
        assert(adx * adx == dx * dx && ady * ady == dy * dy) by (nonlinear_arith)
            requires adx == abs(dx as int), ady == abs(dy as int);
        if len_sq == 0 {
            return (*self, *self);
        }
        let s: u128 = len_sq * 65536;
        proof {
            assert(adx * q <= 0x40000000 * 0x100000000) by (nonlinear_arith)
                requires adx <= 0x40000000, q < 0x100000000;
            assert(ady * q <= 0x40000000 * 0x100000000) by (nonlinear_arith)
                requires ady <= 0x40000000, q < 0x100000000;
            assert(4 * (adx * q) * (adx * q) <= u128::MAX) by (nonlinear_arith)
                requires adx * q <= 0x40000000 * 0x100000000, adx * q >= 0;
            assert(4 * (ady * q) * (ady * q) <= u128::MAX) by (nonlinear_arith)
                requires ady * q <= 0x40000000 * 0x100000000, ady * q >= 0;
        }
        let mx: u128 = ady * q;
        let my: u128 = adx * q;
        let nx = nearest_ratio_exec(mx, s);
        let ny = nearest_ratio_exec(my, s);
        let half_x = is_half_exec(mx, s, nx);
        let half_y = is_half_exec(my, s, ny);
        proof {
            lemma_offset_bound(nx as int, mx as int, s as int, ady as int, q as int, len_sq as int);
            lemma_offset_bound(ny as int, my as int, s as int, adx as int, q as int, len_sq as int);
            assert(q / 256 < 0x100_0000);
        }
        let x_up = !(dy > 0);
        let y_up = !(dx < 0);
        let r = (
            Point(shift_rounded_exec(self.0, x_up, nx, half_x), shift_rounded_exec(self.1, y_up, ny, half_y)),
            Point(shift_rounded_exec(self.0, !x_up, nx, half_x), shift_rounded_exec(self.1, !y_up, ny, half_y)),
        );
        proof {
            assert(half_x == is_half_ratio(mx as int, s as int));
            assert(half_y == is_half_ratio(my as int, s as int));
            assert(r == perpendicular_points(*self, *point2, distance));
        }
        r
    }
}

proof fn lemma_offset_bound(n: int, m: int, s: int, a: int, q: int, len_sq: int)
    requires
        0 <= a,
        0 <= q,
        a * a <= len_sq,
        len_sq > 0,
        s == len_sq * 65536,
        m == a * q,
        is_nearest_ratio(n, m, s),
    ensures
        n <= q / 256 + 1,
{
    if n > q / 256 + 1 {
        let k = q / 256;
        assert(q < 256 * (k + 1));
        assert((2 * n - 1) * (2 * n - 1) * s <= 4 * m * m);
        assert(false) by (nonlinear_arith)
            requires
                n >= k + 2,
                k >= 0,
                q < 256 * (k + 1),
                0 <= q,
                0 <= a,
                a * a <= len_sq,
                len_sq > 0,
                s == len_sq * 65536,
                m == a * q,
                (2 * n - 1) * (2 * n - 1) * s <= 4 * m * m,
        ;
    }
}

/// For `m >= 0` and `s > 0` some integer is nearest to `m / sqrt(s)`.
pub proof fn lemma_nearest_ratio_witness(m: int, s: int) -> (n: int)
    requires
        m >= 0,
        s > 0,
    ensures
        is_nearest_ratio(n, m, s),
        nearest_ratio(m, s) == n,
{
    lemma_nearest_ratio_search(0, m, s)
}

proof fn lemma_nearest_ratio_search(n: int, m: int, s: int) -> (r: int)
    requires
        m >= 0,
        s > 0,
        n >= 0,
        n == 0 || (2 * n - 1) * (2 * n - 1) * s <= 4 * m * m,
    ensures
        is_nearest_ratio(r, m, s),
        nearest_ratio(m, s) == r,
    decreases 4 * m * m + 1 - n,
{
    if 4 * m * m < (2 * n + 1) * (2 * n + 1) * s {
        assert(is_nearest_ratio(n, m, s));
        lemma_nearest_ratio_unique(n, m, s);
        n
    } else {
        assert(n + 1 <= 4 * m * m) by (nonlinear_arith)
            requires
                4 * m * m >= (2 * n + 1) * (2 * n + 1) * s,
                s > 0,
                n >= 0,
        ;
        lemma_nearest_ratio_search(n + 1, m, s)
    }
}

} // verus!
