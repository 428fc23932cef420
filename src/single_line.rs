//! A generalised Bresenham line: the pixels from one point to another, with an
//! optional offset on the initial error term.

use vstd::prelude::*;
use crate::objects::{abs, sign_between, Axis, Point, Sign};
use vstd::arithmetic::div_mod::{
    lemma_fundamental_div_mod,
    lemma_fundamental_div_mod_converse,
    lemma_mod_pos_bound,
};

verus! {

/// A pixel of a line, and whether the step that leaves it for the next pixel also
/// advances the minor axis.
#[derive(Debug, Copy, Clone, PartialEq, Eq, Structural)]
pub struct PointInfo {
    pub point: Point,
    pub diagonal_move: bool,
}

/// The pixels of a line from its start to its end, one per step along the major axis.
#[derive(Debug)]
pub struct LineIterator {
    current_main: i64,
    current_sub: i64,
    delta_main: i64,
    delta_sub: i64,
    error: i64,
    remaining: u64,
    axis_main: Axis,
    sign_main: Sign,
    sign_sub: Sign,
}

pub open spec fn fits_i32(v: int) -> bool {
    i32::MIN <= v <= i32::MAX
}

/// The axis along which `a` and `b` differ most; a tie goes to `X`.
pub open spec fn major_axis(a: Point, b: Point) -> Axis {
    if abs(b.0 - a.0) >= abs(b.1 - a.1) { Axis::X } else { Axis::Y }
}

/// The distance from `a` to `b` along the major axis.
pub open spec fn delta_main(a: Point, b: Point) -> int {
    let axis = major_axis(a, b);
    abs(b.coord(axis) - a.coord(axis))
}

/// The distance from `a` to `b` along the minor axis.
pub open spec fn delta_sub(a: Point, b: Point) -> int {
    let axis = major_axis(a, b).other_spec();
    abs(b.coord(axis) - a.coord(axis))
}

/// The direction of travel from `a` to `b` along the major axis.
pub open spec fn sign_main_of(a: Point, b: Point) -> Sign {
    let axis = major_axis(a, b);
    sign_between(a.coord(axis), b.coord(axis))
}

/// The direction of travel from `a` to `b` along the minor axis.
pub open spec fn sign_sub_of(a: Point, b: Point) -> Sign {
    let axis = major_axis(a, b).other_spec();
    sign_between(a.coord(axis), b.coord(axis))
}

/// The point with coordinate `main` on `axis` and `sub` on the other axis.
pub open spec fn point_on_axes(axis: Axis, main: int, sub: int) -> Point {
    match axis {
        Axis::X => Point(main as i32, sub as i32),
        Axis::Y => Point(sub as i32, main as i32),
    }
}

/// `1` when the line from `a` to `b` travels towards higher minor coordinates, else
/// `0`: a pixel centre exactly halfway between two rows (or columns) then goes to
/// the lower one, whichever end the line starts from.
pub open spec fn tie_shift(a: Point, b: Point) -> int {
    if sign_sub_of(a, b) == Sign::Positive { 1 } else { 0 }
}

/// How far the line from `a` to `b` has advanced along its minor axis after `k` steps:
/// `k * delta_sub / delta_main` rounded to the nearest integer, a value exactly
/// halfway going to the lower absolute minor coordinate.
pub open spec fn minor_steps(a: Point, b: Point, k: int) -> int {
    if delta_main(a, b) == 0 {
        0
    } else {
        (k * (2 * delta_sub(a, b)) + (delta_main(a, b) - tie_shift(a, b))) / (2 * delta_main(a, b))
    }
}

/// The `k`-th pixel of the line from `a` to `b`.
pub open spec fn line_point(a: Point, b: Point, k: int) -> Point {
    let axis = major_axis(a, b);
    point_on_axes(
        axis,
        a.coord(axis) + sign_main_of(a, b).value() * k,
        a.coord(axis.other_spec()) + sign_sub_of(a, b).value() * minor_steps(a, b, k),
    )
}

/// The pixels of the line from `a` to `b`, in order of travel.
pub open spec fn line_points(a: Point, b: Point) -> Seq<Point> {
    Seq::new((delta_main(a, b) + 1) as nat, |k: int| line_point(a, b, k))
}

/// The points of a sequence of pixel records.
pub open spec fn points_of(infos: Seq<PointInfo>) -> Seq<Point> {
    infos.map_values(|i: PointInfo| i.point)
}

/// A line with a non-zero error offset may step along its minor axis on every step:
/// the start moved that far along the minor axis must still be an `i32` point.
pub open spec fn sweep_fits(a: Point, b: Point) -> bool {
    let axis = major_axis(a, b).other_spec();
    fits_i32(a.coord(axis) + sign_sub_of(a, b).value() * delta_main(a, b))
}

/// The pixels of a Bresenham scan along `axis` that is at `main` on the major axis
/// and `sub` on the minor one, with `count` pixels to go: each step advances `main`
/// by `sign_main`, and also advances `sub` by `sign_sub` (a diagonal move) exactly when
/// the error term `err` is non-negative, after which `err` drops by `delta_main`;
/// every step then raises `err` by `delta_sub`.
pub open spec fn bresenham(
    axis: Axis,
    sign_main: int,
    sign_sub: int,
    delta_main: int,
    delta_sub: int,
    main: int,
    sub: int,
    err: int,
    count: nat,
) -> Seq<PointInfo>
    decreases count,
{
    if count == 0 {
        Seq::empty()
    } else {
        let diag = err >= 0;
        seq![PointInfo { point: point_on_axes(axis, main, sub), diagonal_move: diag }] + bresenham(
            axis,
            sign_main,
            sign_sub,
            delta_main,
            delta_sub,
            main + sign_main,
            if diag { sub + sign_sub } else { sub },
            (if diag { err - delta_main } else { err }) + delta_sub,
            (count - 1) as nat,
        )
    }
}

impl LineIterator {
    pub closed spec fn spec_axis_main(&self) -> Axis {
        self.axis_main
    }

    pub closed spec fn spec_sign_main(&self) -> Sign {
        self.sign_main
    }

    pub closed spec fn spec_sign_sub(&self) -> Sign {
        self.sign_sub
    }

    /// How many more steps the minor coordinate may still take.
    spec fn diag_room(&self) -> int {
        let g = self.error + self.delta_main - self.delta_sub;
        if 0 <= g < self.delta_main {
            (g + (self.remaining - 1) * self.delta_sub) / (self.delta_main as int)
        } else {
            self.remaining - 1
        }
    }

    /// The internal invariant of the iterator.
    pub closed spec fn wf(&self) -> bool {
        &&& 0 <= self.delta_sub <= self.delta_main < 0x2_0000_0000
        &&& -0x8_0000_0000 <= self.error <= 0x8_0000_0000
        &&& self.remaining <= self.delta_main + 1
        &&& self.remaining > 0 ==> {
            &&& fits_i32(self.current_main as int)
            &&& fits_i32(self.current_main + self.sign_main.value() * (self.remaining - 1))
            &&& fits_i32(self.current_sub as int)
            &&& fits_i32(self.current_sub + self.sign_sub.value() * self.diag_room())
            &&& self.diag_room() >= 0
        }
    }

    spec fn current_info(&self) -> PointInfo {
        PointInfo {
            point: point_on_axes(self.axis_main, self.current_main as int, self.current_sub as int),
            diagonal_move: self.error >= 0,
        }
    }

    spec fn step(&self) -> LineIterator {
        let diag = self.error >= 0;
        LineIterator {
            current_main: (self.current_main + self.sign_main.value()) as i64,
            current_sub: (if diag { self.current_sub + self.sign_sub.value() } else { self.current_sub as int }) as i64,
            error: ((if diag { self.error - self.delta_main } else { self.error as int }) + self.delta_sub) as i64,
            remaining: (self.remaining - 1) as u64,
            ..*self
        }
    }

    spec fn infos_from(&self) -> Seq<PointInfo>
        decreases self.remaining,
    {
        if self.remaining == 0 {
            Seq::empty()
        } else {
            seq![self.current_info()] + self.step().infos_from()
        }
    }

    /// The pixels that this iterator has yet to produce, in order.
    pub closed spec fn infos(&self) -> Seq<PointInfo> {
        self.infos_from()
    }

    /// The iterator that `new_with_error(a, b, offset)` builds.
    spec fn initial(a: Point, b: Point, offset: int) -> LineIterator {
        let axis = major_axis(a, b);
        LineIterator {
            current_main: a.coord(axis) as i64,
            current_sub: a.coord(axis.other_spec()) as i64,
            delta_main: (2 * delta_main(a, b)) as i64,
            delta_sub: (2 * delta_sub(a, b)) as i64,
            error: (2 * delta_sub(a, b) - delta_main(a, b) - tie_shift(a, b) + 2 * offset) as i64,
            remaining: (delta_main(a, b) + 1) as u64,
            axis_main: axis,
            sign_main: sign_main_of(a, b),
            sign_sub: sign_sub_of(a, b),
        }
    }

    /// The pixels of the line from `a` to `b` shifted by `offset / delta_main` pixel
    /// along the minor axis: the scan works on doubled deltas and starts at `a` with
    /// the error `2 * delta_sub - delta_main - tie_shift + 2 * offset`, so that each
    /// pixel is the one nearest to the ideal (shifted) line.
    pub open spec fn line_infos(a: Point, b: Point, offset: int) -> Seq<PointInfo> {
        let axis = major_axis(a, b);
        bresenham(
            axis,
            sign_main_of(a, b).value(),
            sign_sub_of(a, b).value(),
            2 * delta_main(a, b),
            2 * delta_sub(a, b),
            a.coord(axis),
            a.coord(axis.other_spec()),
            2 * delta_sub(a, b) - delta_main(a, b) - tie_shift(a, b) + 2 * offset,
            (delta_main(a, b) + 1) as nat,
        )
    }
}

proof fn lemma_infos_len(it: LineIterator)
    ensures
        it.infos().len() == it.remaining,
    decreases it.remaining,
{
    if it.remaining > 0 {
        lemma_infos_len(it.step());
    }
}

proof fn lemma_infos_bresenham(it: LineIterator)
    requires
        it.wf(),
    ensures
        it.infos() == bresenham(
            it.axis_main,
            it.sign_main.value(),
            it.sign_sub.value(),
            it.delta_main as int,
            it.delta_sub as int,
            it.current_main as int,
            it.current_sub as int,
            it.error as int,
            it.remaining as nat,
        ),
    decreases it.remaining,
{
    if it.remaining > 0 {
        lemma_step_wf(it);
        lemma_infos_bresenham(it.step());
    }
}

proof fn lemma_initial_infos(a: Point, b: Point, offset: int)
    requires
        fits_i32(offset),
        offset == 0 || sweep_fits(a, b),
    ensures
        LineIterator::initial(a, b, offset).infos() == LineIterator::line_infos(a, b, offset),
{
    lemma_initial_wf(a, b, offset);
    lemma_infos_bresenham(LineIterator::initial(a, b, offset));
}

proof fn lemma_step_wf(it: LineIterator)
    requires
        it.wf(),
        it.remaining > 0,
    ensures
        it.step().wf(),
{
    let s = it.step();
    let dm = it.delta_main as int;
    let ds = it.delta_sub as int;
    let r = it.remaining as int;
    let g = it.error + dm - ds;
    let g2 = s.error + dm - ds;
    let diag = it.error >= 0;
    if r >= 2 {
        if 0 <= g < dm {
            let x = g + (r - 1) * ds;
            assert(g2 == g + ds - (if diag { dm } else { 0 }));
            assert(0 <= g2 < dm);
            assert(g2 + (r - 2) * ds == x - (if diag { dm } else { 0 })) by (nonlinear_arith)
                requires
                    g2 == g + ds - (if diag { dm } else { 0 }),
                    x == g + (r - 1) * ds,
            ;
            lemma_fundamental_div_mod(x, dm);
            lemma_mod_pos_bound(x, dm);
            if diag {
                assert(x >= dm) by (nonlinear_arith)
                    requires
                        x == g + (r - 1) * ds,
                        r >= 2,
                        ds >= 0,
                        g + ds >= dm,
                ;
                assert(x / dm >= 1) by (nonlinear_arith)
                    requires
                        x == dm * (x / dm) + x % dm,
                        x % dm < dm,
                        x >= dm,
                ;
                assert(x - dm == (x / dm - 1) * dm + x % dm) by (nonlinear_arith)
                    requires
                        x == dm * (x / dm) + x % dm,
                ;
                lemma_fundamental_div_mod_converse(x - dm, dm, x / dm - 1, x % dm);
            } else {
                assert(x == (x / dm) * dm + x % dm) by (nonlinear_arith)
                    requires
                        x == dm * (x / dm) + x % dm,
                ;
                lemma_fundamental_div_mod_converse(x, dm, x / dm, x % dm);
            }
            assert(s.diag_room() == it.diag_room() - (if diag { 1int } else { 0 }));
        } else {
            assert(it.diag_room() == r - 1);
            if 0 <= g2 < dm {
                let y = g2 + (r - 2) * ds;
                assert(y < (r - 1) * dm) by (nonlinear_arith)
                    requires
                        y == g2 + (r - 2) * ds,
                        g2 < dm,
                        ds <= dm,
                        r >= 2,
                ;
                assert(y >= 0) by (nonlinear_arith)
                    requires
                        y == g2 + (r - 2) * ds,
                        g2 >= 0,
                        ds >= 0,
                        r >= 2,
                ;
                lemma_fundamental_div_mod(y, dm);
                lemma_mod_pos_bound(y, dm);
                assert(y / dm <= r - 2) by (nonlinear_arith)
                    requires
                        y == dm * (y / dm) + y % dm,
                        y % dm >= 0,
                        y < (r - 1) * dm,
                        dm > 0,
                ;
                assert(y / dm >= 0) by (nonlinear_arith)
                    requires
                        y == dm * (y / dm) + y % dm,
                        y % dm < dm,
                        y >= 0,
                        dm > 0,
                ;
            }
            if diag {
                assert(r - 1 >= 1);
            }
            assert(0 <= s.diag_room() <= r - 2);
        }
    }
    assert(-0x8_0000_0000 <= s.error <= 0x8_0000_0000);
    assert(s.remaining <= s.delta_main + 1);
    if s.remaining > 0 {
        assert(s.remaining == it.remaining - 1);
        assert(it.current_main + it.sign_main.value() == s.current_main);
        match it.sign_main {
            Sign::Positive => {
                assert(fits_i32(it.current_main + (it.remaining - 1)));
            },
            Sign::Negative => {
                assert(fits_i32(it.current_main - (it.remaining - 1)));
            },
        }
        assert(fits_i32(s.current_main as int));
        assert(fits_i32(s.current_main + s.sign_main.value() * (s.remaining - 1)));
        let room = it.diag_room();
        let room2 = s.diag_room();
        assert(0 <= room2 && room2 + (if diag { 1int } else { 0 }) <= room);
        assert(s.current_sub == it.current_sub + (if diag { it.sign_sub.value() } else { 0 }));
        match it.sign_sub {
            Sign::Positive => {
                assert(it.sign_sub.value() == 1);
                assert(it.sign_sub.value() * room == room) by (nonlinear_arith)
                    requires
                        it.sign_sub.value() == 1,
                ;
                assert(fits_i32(it.current_sub + room));
            },
            Sign::Negative => {
                assert(it.sign_sub.value() * room == -room);
                assert(fits_i32(it.current_sub - room));
            },
        }
        assert(fits_i32(s.current_sub as int));
        assert(s.diag_room() >= 0);
        assert(fits_i32(s.current_sub + s.sign_sub.value() * s.diag_room()));
    }
}

/// How the minor coordinate `(k * d + o) / m` moves from one step to the next.
proof fn lemma_minor_step(k: int, d: int, m: int, o: int)
    requires
        m > 0,
        0 <= d <= m,
        0 <= o < m,
        k >= 0,
    ensures
        ((k + 1) * d + o) / m == (k * d + o) / m + (if (k + 1) * d + o >= ((k * d + o) / m + 1) * m { 1int } else { 0 }),
{
    let x = k * d + o;
    assert(x >= 0) by (nonlinear_arith)
        requires k >= 0, d >= 0, o >= 0, x == k * d + o;
    assert((k + 1) * d + o == x + d) by (nonlinear_arith)
        requires x == k * d + o;
    let c = x / m;
    lemma_fundamental_div_mod(x, m);
    lemma_mod_pos_bound(x, m);
    let rm = x % m;
    assert(x + d == c * m + rm + d) by (nonlinear_arith)
        requires
            x == m * c + rm,
    ;
    if rm + d >= m {
        assert(x + d == (c + 1) * m + (rm + d - m)) by (nonlinear_arith)
            requires
                x + d == c * m + rm + d,
        ;
        lemma_fundamental_div_mod_converse(x + d, m, c + 1, rm + d - m);
    } else {
        lemma_fundamental_div_mod_converse(x + d, m, c, rm + d);
    }
    assert((x + d >= (c + 1) * m) == (rm + d >= m)) by (nonlinear_arith)
        requires
            x + d == c * m + rm + d,
    ;
}

/// The state of a line without offset after `k` steps.
spec fn state_at(a: Point, b: Point, k: int, it: LineIterator) -> bool {
    let axis = major_axis(a, b);
    let dm = delta_main(a, b);
    let ds = delta_sub(a, b);
    let c = minor_steps(a, b, k);
    &&& it.axis_main == axis
    &&& it.sign_main == sign_main_of(a, b)
    &&& it.sign_sub == sign_sub_of(a, b)
    &&& it.delta_main == 2 * dm
    &&& it.delta_sub == 2 * ds
    &&& 0 <= k <= dm + 1
    &&& it.remaining == dm + 1 - k
    &&& it.current_main == a.coord(axis) + sign_main_of(a, b).value() * k
    &&& it.current_sub == a.coord(axis.other_spec()) + sign_sub_of(a, b).value() * c
    &&& it.error == (k + 1) * (2 * ds) + (dm - tie_shift(a, b)) - (c + 1) * (2 * dm)
}

proof fn lemma_state_infos(a: Point, b: Point, k: int, it: LineIterator)
    requires
        state_at(a, b, k, it),
        it.wf(),
    ensures
        points_of(it.infos()) == line_points(a, b).subrange(k, delta_main(a, b) + 1),
    decreases it.remaining,
{
    let dm = delta_main(a, b);
    let ds = delta_sub(a, b);
    let d = 2 * ds;
    let m = 2 * dm;
    let o = dm - tie_shift(a, b);
    lemma_infos_len(it);
    if it.remaining > 0 {
        let s = it.step();
        lemma_step_wf(it);
        if dm > 0 {
            lemma_minor_step(k, d, m, o);
            assert((k + 1) * d + o >= ((k * d + o) / m + 1) * m <==> it.error >= 0);
        }
        if s.remaining > 0 {
            let c = minor_steps(a, b, k);
            let c2 = minor_steps(a, b, k + 1);
            if dm > 0 {
                assert(c2 == c + (if it.error >= 0 { 1int } else { 0 }));
            } else {
                assert(k == 0);
            }
            assert(s.error == (k + 2) * d + o - (c2 + 1) * m) by (nonlinear_arith)
                requires
                    it.error == (k + 1) * d + o - (c + 1) * m,
                    s.error == it.error - (if it.error >= 0 { m } else { 0 }) + d,
                    c2 == c + (if it.error >= 0 { 1int } else { 0 }),
            ;
            assert(s.current_main == a.coord(major_axis(a, b)) + sign_main_of(a, b).value() * (k + 1)) by (nonlinear_arith)
                requires
                    it.current_main == a.coord(major_axis(a, b)) + sign_main_of(a, b).value() * k,
                    s.current_main == it.current_main + sign_main_of(a, b).value(),
            ;
            assert(s.current_sub == a.coord(major_axis(a, b).other_spec()) + sign_sub_of(a, b).value() * c2) by (nonlinear_arith)
                requires
                    it.current_sub == a.coord(major_axis(a, b).other_spec()) + sign_sub_of(a, b).value() * c,
                    s.current_sub == it.current_sub + (if it.error >= 0 { sign_sub_of(a, b).value() } else { 0 }),
                    c2 == c + (if it.error >= 0 { 1int } else { 0 }),
            ;
            assert(state_at(a, b, k + 1, s));
            lemma_state_infos(a, b, k + 1, s);
        } else {
            lemma_infos_len(s);
        }
        assert(it.infos() == seq![it.current_info()] + s.infos());
        assert(it.current_info().point == line_point(a, b, k));
        assert(points_of(it.infos()) =~= seq![line_point(a, b, k)] + points_of(s.infos()));
        assert(line_points(a, b).subrange(k, dm + 1) =~= seq![line_point(a, b, k)] + line_points(a, b).subrange(k + 1, dm + 1));
        assert(points_of(it.infos()) =~= line_points(a, b).subrange(k, dm + 1));
    } else {
        assert(points_of(it.infos()) =~= line_points(a, b).subrange(k, dm + 1));
    }
}

/// The line from `a` to `b` without offset yields exactly `line_points(a, b)`.
pub proof fn lemma_line_infos_points(a: Point, b: Point)
    ensures
        points_of(LineIterator::line_infos(a, b, 0)) == line_points(a, b),
{
    let it = LineIterator::initial(a, b, 0);
    let dm = delta_main(a, b);
    let ds = delta_sub(a, b);
    assert(minor_steps(a, b, 0) == 0) by {
        if dm > 0 {
            assert(0 * (2 * ds) == 0);
            lemma_fundamental_div_mod_converse(dm - tie_shift(a, b), 2 * dm, 0, dm - tie_shift(a, b));
        }
    }
    assert(state_at(a, b, 0, it));
    lemma_initial_wf(a, b, 0);
    lemma_initial_infos(a, b, 0);
    lemma_state_infos(a, b, 0, it);
    assert(line_points(a, b).subrange(0, dm + 1) =~= line_points(a, b));
}

proof fn lemma_initial_wf(a: Point, b: Point, offset: int)
    requires
        fits_i32(offset),
        offset == 0 || sweep_fits(a, b),
    ensures
        LineIterator::initial(a, b, offset).wf(),
{
    let it = LineIterator::initial(a, b, offset);
    let dm = delta_main(a, b);
    let ds = delta_sub(a, b);
    let m = 2 * dm;
    let g = it.error + m - 2 * ds;
    assert(g == dm - tie_shift(a, b) + 2 * offset);
    if 0 <= g < m {
        let x = g + dm * (2 * ds);
        assert(x == ds * m + g) by (nonlinear_arith)
            requires
                x == g + dm * (2 * ds),
                m == 2 * dm,
        ;
        lemma_fundamental_div_mod_converse(x, m, ds, g);
        assert(x == g + (it.remaining - 1) * it.delta_sub) by (nonlinear_arith)
            requires
                x == g + dm * (2 * ds),
                it.remaining - 1 == dm,
                it.delta_sub == 2 * ds,
        ;
        assert(it.diag_room() == ds);
    }
    let axis = major_axis(a, b);
    let other = axis.other_spec();
    assert(it.current_main + it.sign_main.value() * (it.remaining - 1) == b.coord(axis)) by {
        if b.coord(axis) >= a.coord(axis) {
            assert(it.sign_main.value() == 1);
        } else {
            assert(it.sign_main.value() == -1);
        }
    }
    if 0 <= g < m {
        assert(it.current_sub + it.sign_sub.value() * it.diag_room() == b.coord(other)) by {
            if b.coord(other) >= a.coord(other) {
                assert(it.sign_sub.value() == 1);
            } else {
                assert(it.sign_sub.value() == -1);
            }
        }
    } else {
        assert(it.diag_room() == dm);
        if offset == 0 {
            assert(dm == 0);
        }
    }
    assert(fits_i32(a.coord(axis)) && fits_i32(b.coord(axis)) && fits_i32(a.coord(other)) && fits_i32(b.coord(other))) by {
        match axis {
            Axis::X => {},
            Axis::Y => {},
        }
    }
}

impl LineIterator {
    /// The line from `start` to `end`.
    pub fn new(start: Point, end: Point) -> (r: LineIterator)
        ensures
            r.wf(),
            r.infos() == LineIterator::line_infos(start, end, 0),
            points_of(r.infos()) == line_points(start, end),
            r.spec_axis_main() == major_axis(start, end),
            r.spec_sign_main() == sign_main_of(start, end),
            r.spec_sign_sub() == sign_sub_of(start, end),
    {
        proof {
            lemma_line_infos_points(start, end);
        }
        Self::new_with_error(start, end, 0)
    }

    /// The line from `start` to `end` whose error term is seeded with `error_offset`,
    /// which shifts it by `error_offset / delta_main` pixel along the minor axis, so
    /// that its minor-axis steps follow those of a parent computation.
    pub fn new_with_error(start: Point, end: Point, error_offset: i32) -> (r: LineIterator)
        requires
            error_offset == 0 || sweep_fits(start, end),
        ensures
            r.wf(),
            r.infos() == LineIterator::line_infos(start, end, error_offset as int),
            r.infos().len() == delta_main(start, end) + 1,
            r.spec_axis_main() == major_axis(start, end),
            r.spec_sign_main() == sign_main_of(start, end),
            r.spec_sign_sub() == sign_sub_of(start, end),
    {
        let dx: i64 = end.0 as i64 - start.0 as i64;
        let dy: i64 = end.1 as i64 - start.1 as i64;
        let delta_x: i64 = if dx < 0 { -dx } else { dx };
        let delta_y: i64 = if dy < 0 { -dy } else { dy };
        let axis_main = if delta_x >= delta_y { Axis::X } else { Axis::Y };
        let sign_x = if end.0 >= start.0 { Sign::Positive } else { Sign::Negative };
        let sign_y = if end.1 >= start.1 { Sign::Positive } else { Sign::Negative };
        let (sign_main, sign_sub) = match axis_main {
            Axis::X => (sign_x, sign_y),
            Axis::Y => (sign_y, sign_x),
        };
        let (delta_main, delta_sub) = match axis_main {
            Axis::X => (delta_x, delta_y),
            Axis::Y => (delta_y, delta_x),
        };
        let (current_main, current_sub) = match axis_main {
            Axis::X => (start.0 as i64, start.1 as i64),
            Axis::Y => (start.1 as i64, start.0 as i64),
        };
        let tie: i64 = match sign_sub {
            Sign::Positive => 1,
            Sign::Negative => 0,
        };
        let error = 2 * delta_sub - delta_main - tie + 2 * error_offset as i64;
        let r = LineIterator {
            current_main,
            current_sub,
            delta_main: 2 * delta_main,
            delta_sub: 2 * delta_sub,
            error,
            remaining: (delta_main + 1) as u64,
            axis_main,
            sign_main,
            sign_sub,
        };
        proof {
            assert(r == Self::initial(start, end, error_offset as int));
            lemma_initial_wf(start, end, error_offset as int);
            lemma_initial_infos(start, end, error_offset as int);
            lemma_infos_len(r);
        }
        r
    }

    /// The distances from `start` to `end` along the major and the minor axis.
    pub fn get_delta_values(start: Point, end: Point) -> (r: (i32, i32))
        requires
            fits_i32(end.0 - start.0),
            fits_i32(end.1 - start.1),
            end.0 - start.0 != i32::MIN,
            end.1 - start.1 != i32::MIN,
        ensures
            r.0 == delta_main(start, end),
            r.1 == delta_sub(start, end),
    {
        let dx: i32 = end.0 - start.0;
        let dy: i32 = end.1 - start.1;
        let delta_x: i32 = if dx < 0 { -dx } else { dx };
        let delta_y: i32 = if dy < 0 { -dy } else { dy };
        if delta_x >= delta_y {
            (delta_x, delta_y)
        } else {
            (delta_y, delta_x)
        }
    }

    /// The direction of travel from `start` to `end` along the minor axis.
    pub fn get_sub_sign(start: Point, end: Point) -> (r: Sign)
        ensures
            r == sign_sub_of(start, end),
    {
        let dx: i64 = end.0 as i64 - start.0 as i64;
        let dy: i64 = end.1 as i64 - start.1 as i64;
        let delta_x: i64 = if dx < 0 { -dx } else { dx };
        let delta_y: i64 = if dy < 0 { -dy } else { dy };
        let axis_main = if delta_x >= delta_y { Axis::X } else { Axis::Y };
        let sign_x = if end.0 >= start.0 { Sign::Positive } else { Sign::Negative };
        let sign_y = if end.1 >= start.1 { Sign::Positive } else { Sign::Negative };
        match axis_main {
            Axis::X => sign_y,
            Axis::Y => sign_x,
        }
    }

    /// The direction of travel along the major axis.
    pub fn get_sign_main(&self) -> (r: Sign)
        ensures
            r == self.spec_sign_main(),
    {
        self.sign_main
    }

    /// The direction of travel along the minor axis.
    pub fn get_sign_sub(&self) -> (r: Sign)
        ensures
            r == self.spec_sign_sub(),
    {
        self.sign_sub
    }

    /// The major axis of the line.
    pub fn get_axis_main(&self) -> (r: Axis)
        ensures
            r == self.spec_axis_main(),
    {
        self.axis_main
    }

    /// Whether every pixel has been produced.
    fn completed(&self) -> (r: bool)
        requires
            self.wf(),
        ensures
            r == (self.infos().len() == 0),
    {
        proof {
            lemma_infos_len(*self);
        }
        self.remaining == 0
    }

    fn get_current_point(&self) -> (r: Point)
        requires
            self.wf(),
            self.remaining > 0,
        ensures
            r == self.current_info().point,
    {
        match self.axis_main {
            Axis::X => Point(self.current_main as i32, self.current_sub as i32),
            Axis::Y => Point(self.current_sub as i32, self.current_main as i32),
        }
    }

    /// The next pixel of the line, or `None` once the end has been produced.
    pub fn next(&mut self) -> (r: Option<PointInfo>)
        requires
            old(self).wf(),
        ensures
            final(self).wf(),
            old(self).infos().len() == 0 ==> r is None && final(self).infos().len() == 0,
            old(self).infos().len() > 0 ==> r == Some(old(self).infos()[0])
                && final(self).infos() == old(self).infos().drop_first(),
            final(self).spec_axis_main() == old(self).spec_axis_main(),
            final(self).spec_sign_main() == old(self).spec_sign_main(),
            final(self).spec_sign_sub() == old(self).spec_sign_sub(),
    {
        if self.completed() {
            return None;
        }
        let current_point = self.get_current_point();
        let ghost before = *self;
        proof {
            lemma_step_wf(before);
        }
        let mut diagonal_move = false;
        if self.error >= 0 {
            self.current_sub = self.current_sub + self.sign_sub.to_i32() as i64;
            self.error = self.error - self.delta_main;
            diagonal_move = true;
        }
        self.error = self.error + self.delta_sub;
        self.current_main = self.current_main + self.sign_main.to_i32() as i64;
        self.remaining = self.remaining - 1;
        proof {
            assert(*self == before.step());
            assert(before.infos() == seq![before.current_info()] + before.step().infos());
            assert(before.infos().drop_first() =~= self.infos());
        }
        Some(PointInfo { point: current_point, diagonal_move })
    }

    /// Every remaining pixel, in order, leaving the iterator exhausted.
    pub fn collect_points(&mut self) -> (r: Vec<Point>)
        requires
            old(self).wf(),
        ensures
            final(self).wf(),
            r@ == points_of(old(self).infos()),
            final(self).infos().len() == 0,
    {
        let mut out: Vec<Point> = Vec::new();
        loop
            invariant
                self.wf(),
                points_of(old(self).infos()) == out@ + points_of(self.infos()),
            decreases self.infos().len(),
        {
            let ghost before = self.infos();
            match self.next() {
                None => {
                    assert(points_of(self.infos()) =~= Seq::<Point>::empty());
                    assert(out@ + points_of(self.infos()) =~= out@);
                    return out;
                },
                Some(info) => {
                    out.push(info.point);
                    assert(points_of(before) =~= seq![info.point] + points_of(self.infos()));
                    assert(out@ + points_of(self.infos()) =~= (out@.drop_last() + seq![info.point]) + points_of(self.infos()));
                },
            }
        }
    }
}

/// The minor coordinate of `a + c` after `k` steps of the line from `a` to `b`, seen
/// from the other end: the two rounded positions add up to the whole minor travel.
proof fn lemma_reverse_minor(k: int, ds: int, dm: int, t: int)
    requires
        dm > 0,
        0 <= ds <= dm,
        0 <= k <= dm,
        t == 0 || t == 1,
    ensures
        (k * (2 * ds) + (dm - (1 - t))) / (2 * dm) + ((dm - k) * (2 * ds) + (dm - t)) / (2 * dm) == ds,
{
    let m = 2 * dm;
    let y = k * (2 * ds) + (dm - (1 - t));
    assert(y >= 0) by (nonlinear_arith)
        requires y == k * (2 * ds) + (dm - (1 - t)), k >= 0, ds >= 0, dm >= 1, t >= 0;
    lemma_fundamental_div_mod(y, m);
    lemma_mod_pos_bound(y, m);
    let q = y / m;
    let r = y % m;
    assert((dm - k) * (2 * ds) + (dm - t) == (ds - q) * m + (m - 1 - r)) by (nonlinear_arith)
        requires
            y == m * q + r,
            y == k * (2 * ds) + (dm - (1 - t)),
            m == 2 * dm,
    ;
    lemma_fundamental_div_mod_converse((dm - k) * (2 * ds) + (dm - t), m, ds - q, m - 1 - r);
}

/// The line from `a` to `b` starts at `a`, ends at `b`, and has one pixel for each
/// step along its major axis: `max(|dx|, |dy|) + 1` pixels.
pub proof fn lemma_line_endpoints(a: Point, b: Point)
    ensures
        ({
            let pts = points_of(LineIterator::line_infos(a, b, 0));
            &&& pts.len() == (if abs(b.0 - a.0) >= abs(b.1 - a.1) { abs(b.0 - a.0) } else { abs(b.1 - a.1) }) + 1
            &&& pts[0] == a
            &&& pts.last() == b
        }),
{
    lemma_line_infos_points(a, b);
    let dm = delta_main(a, b);
    let ds = delta_sub(a, b);
    let axis = major_axis(a, b);
    let other = axis.other_spec();
    let o = dm - tie_shift(a, b);
    if dm > 0 {
        assert(0 * (2 * ds) == 0);
        lemma_fundamental_div_mod_converse(o, 2 * dm, 0, o);
        assert(dm * (2 * ds) + o == ds * (2 * dm) + o) by (nonlinear_arith);
        lemma_fundamental_div_mod_converse(dm * (2 * ds) + o, 2 * dm, ds, o);
    }
    assert(minor_steps(a, b, 0) == 0);
    assert(minor_steps(a, b, dm) == ds);
    assert(a.coord(axis) + sign_main_of(a, b).value() * dm == b.coord(axis)) by {
        if b.coord(axis) >= a.coord(axis) {
            assert(sign_main_of(a, b).value() == 1);
        } else {
            assert(sign_main_of(a, b).value() == -1);
        }
    }
    assert(a.coord(other) + sign_sub_of(a, b).value() * ds == b.coord(other)) by {
        if b.coord(other) >= a.coord(other) {
            assert(sign_sub_of(a, b).value() == 1);
        } else {
            assert(sign_sub_of(a, b).value() == -1);
        }
    }
    let pts = line_points(a, b);
    assert(pts[0] == line_point(a, b, 0));
    assert(pts.last() == line_point(a, b, dm));
    match axis {
        Axis::X => {},
        Axis::Y => {},
    }
}

/// Swapping the endpoints of a line yields the same pixels in reverse order.
pub proof fn lemma_line_reverse(a: Point, b: Point)
    ensures
        points_of(LineIterator::line_infos(b, a, 0)) == points_of(LineIterator::line_infos(a, b, 0)).reverse(),
{
    lemma_line_infos_points(a, b);
    lemma_line_infos_points(b, a);
    let dm = delta_main(a, b);
    let ds = delta_sub(a, b);
    let axis = major_axis(a, b);
    let other = axis.other_spec();
    assert(major_axis(b, a) == axis);
    assert(delta_main(b, a) == dm);
    assert(delta_sub(b, a) == ds);
    let fwd = line_points(a, b);
    let bwd = line_points(b, a);
    assert forall|k: int| 0 <= k <= dm implies #[trigger] bwd[k] == fwd[dm - k] by {
        assert(bwd[k] == line_point(b, a, k));
        assert(fwd[dm - k] == line_point(a, b, dm - k));
        let sm = sign_main_of(a, b).value();
        let sm2 = sign_main_of(b, a).value();
        let ss = sign_sub_of(a, b).value();
        let ss2 = sign_sub_of(b, a).value();
        assert(dm == abs(b.coord(axis) - a.coord(axis)));
        if b.coord(axis) > a.coord(axis) {
            assert(sm == 1 && sm2 == -1);
            assert(b.coord(axis) + sm2 * k == a.coord(axis) + sm * (dm - k)) by (nonlinear_arith)
                requires sm == 1, sm2 == -1, dm == b.coord(axis) - a.coord(axis);
        } else if b.coord(axis) < a.coord(axis) {
            assert(sm == -1 && sm2 == 1);
            assert(b.coord(axis) + sm2 * k == a.coord(axis) + sm * (dm - k)) by (nonlinear_arith)
                requires sm == -1, sm2 == 1, dm == a.coord(axis) - b.coord(axis);
        } else {
            assert(dm == 0);
        }
        if dm > 0 {
            let c2 = minor_steps(b, a, k);
            let c1 = minor_steps(a, b, dm - k);
            assert(ds == abs(b.coord(other) - a.coord(other)));
            if ds == 0 {
                assert(tie_shift(a, b) == 1 && tie_shift(b, a) == 1);
                assert(k * (2 * ds) == 0 && (dm - k) * (2 * ds) == 0) by (nonlinear_arith)
                    requires ds == 0;
                lemma_fundamental_div_mod_converse(dm - 1, 2 * dm, 0, dm - 1);
                assert(c2 == 0 && c1 == 0);
                assert(b.coord(other) == a.coord(other));
            } else {
                let t = tie_shift(a, b);
                assert(tie_shift(b, a) == 1 - t);
                lemma_reverse_minor(k, ds, dm, t);
                assert(c2 + c1 == ds);
                if b.coord(other) > a.coord(other) {
                    assert(ss == 1 && ss2 == -1);
                    assert(b.coord(other) + ss2 * c2 == a.coord(other) + ss * c1) by (nonlinear_arith)
                        requires ss == 1, ss2 == -1, ds == b.coord(other) - a.coord(other), c2 + c1 == ds;
                } else {
                    assert(ss == -1 && ss2 == 1);
                    assert(b.coord(other) + ss2 * c2 == a.coord(other) + ss * c1) by (nonlinear_arith)
                        requires ss == -1, ss2 == 1, ds == a.coord(other) - b.coord(other), c2 + c1 == ds;
                }
            }
        } else {
            assert(k == 0);
        }
    }
    assert(bwd =~= fwd.reverse());
}

/// `v` lies between `x` and `y`.
pub open spec fn between(v: int, x: int, y: int) -> bool {
    (x <= v <= y) || (y <= v <= x)
}

/// Every pixel of the line from `a` to `b` lies in the box that the two span.
pub proof fn lemma_line_point_between(a: Point, b: Point, k: int)
    requires
        0 <= k <= delta_main(a, b),
    ensures
        between(line_point(a, b, k).0 as int, a.0 as int, b.0 as int),
        between(line_point(a, b, k).1 as int, a.1 as int, b.1 as int),
{
    let dm = delta_main(a, b);
    let ds = delta_sub(a, b);
    let axis = major_axis(a, b);
    let other = axis.other_spec();
    let c = minor_steps(a, b, k);
    if dm > 0 {
        let o = dm - tie_shift(a, b);
        let x = k * (2 * ds) + o;
        lemma_fundamental_div_mod(x, 2 * dm);
        lemma_mod_pos_bound(x, 2 * dm);
        assert(0 <= c <= ds) by (nonlinear_arith)
            requires
                c == x / (2 * dm),
                x == k * (2 * ds) + o,
                x == (2 * dm) * c + x % (2 * dm),
                0 <= x % (2 * dm) < 2 * dm,
                0 <= k <= dm,
                0 <= ds,
                0 <= o < 2 * dm,
        ;
    }
    let m = a.coord(axis) + sign_main_of(a, b).value() * k;
    let n = a.coord(other) + sign_sub_of(a, b).value() * c;
    assert(between(m, a.coord(axis), b.coord(axis))) by {
        if b.coord(axis) >= a.coord(axis) {
            assert(sign_main_of(a, b).value() == 1);
        } else {
            assert(sign_main_of(a, b).value() == -1);
        }
    }
    let ss = sign_sub_of(a, b).value();
    assert(ds == abs(b.coord(other) - a.coord(other)));
    if b.coord(other) >= a.coord(other) {
        assert(ss == 1);
        assert(between(n, a.coord(other), b.coord(other))) by (nonlinear_arith)
            requires ss == 1, n == a.coord(other) + ss * c, 0 <= c <= ds, ds == b.coord(other) - a.coord(other);
    } else {
        assert(ss == -1);
        assert(between(n, a.coord(other), b.coord(other))) by (nonlinear_arith)
            requires ss == -1, n == a.coord(other) + ss * c, 0 <= c <= ds, ds == a.coord(other) - b.coord(other);
    }
    match axis {
        Axis::X => {},
        Axis::Y => {},
    }
}

/// A line without minor-axis travel never steps along its minor axis.
pub proof fn lemma_straight_minor(a: Point, b: Point, k: int)
    requires
        delta_sub(a, b) == 0,
    ensures
        minor_steps(a, b, k) == 0,
{
    let dm = delta_main(a, b);
    if dm > 0 {
        assert(tie_shift(a, b) == 1);
        assert(k * (2 * 0) == 0);
        lemma_fundamental_div_mod_converse(dm - 1, 2 * dm, 0, dm - 1);
    }
}

} // verus!
