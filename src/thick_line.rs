//! Thick strokes by Murphy's algorithm: parallel lines started from the pixels of a
//! line across the stroke.

use vstd::prelude::*;
use crate::objects::{abs, Axis, Length, Point, Sign, COORD_LIMIT};
use crate::single_line::{
    between, delta_main, delta_sub, lemma_line_infos_points, lemma_line_point_between, line_point, line_points, major_axis,
    points_of, sign_main_of, sign_sub_of, LineIterator, PointInfo,
};

verus! {

/// How far the pixels of the line across a stroke may lie from the origin.
pub open spec fn sweep_limit() -> int {
    COORD_LIMIT + 0x100_0000
}

/// `p` moved by the vector from `start` to `end`.
pub open spec fn shifted(p: Point, start: Point, end: Point) -> Point {
    Point((p.0 + (end.0 - start.0)) as i32, (p.1 + (end.1 - start.1)) as i32)
}

/// The pixels of a stroke between two points.
#[derive(Debug)]
pub struct ThickLine {
    start: Point,
    end: Point,
    main_line_iterator: LineIterator,
    sub_line_iterator: Option<LineIterator>,
    special_line: Option<Point>,
    perpendicular_error: i64,
    error_sign: Sign,
    sub_delta_main: i64,
    sub_delta_sub: i64,
}

/// The pixels of the line parallel to the stroke from `start` to `end` that starts
/// at `p`, its error term seeded from the perpendicular error `pe`.
pub open spec fn sub_points(start: Point, end: Point, error_sign: Sign, p: Point, pe: int) -> Seq<Point> {
    points_of(LineIterator::line_infos(p, shifted(p, start, end), error_sign.value() * pe))
}

/// The start of the extra line that fills the seam after a diagonal step at `p`.
pub open spec fn special_point(start: Point, end: Point, p: Point) -> Point {
    p.moved_along(major_axis(start, end).other_spec(), sign_sub_of(start, end).value())
}

/// The pixels of the parallel lines of the stroke from `start` to `end` still to
/// come: one for a pending extra start, then one for each remaining pixel `infos`
/// of the line across the stroke, with the perpendicular error `pe` carried along.
pub open spec fn sweep(start: Point, end: Point, error_sign: Sign, infos: Seq<PointInfo>, pe: int, special: Option<Point>) -> Seq<Point>
    decreases infos.len(), if special is Some { 1int } else { 0 },
{
    let dm = delta_main(start, end);
    let ds = delta_sub(start, end);
    match special {
        Some(p) => {
            let pe2 = pe + ds - dm;
            sub_points(start, end, error_sign, p, pe2) + sweep(start, end, error_sign, infos, pe2, None)
        },
        None => {
            if infos.len() == 0 {
                Seq::empty()
            } else {
                let info = infos[0];
                let extra = info.diagonal_move && pe >= dm - ds;
                let special2 = if extra { Some(special_point(start, end, info.point)) } else { None };
                let pe2 = if info.diagonal_move && !extra { pe + ds } else { pe };
                sub_points(start, end, error_sign, info.point, pe)
                    + sweep(start, end, error_sign, infos.drop_first(), pe2, special2)
            }
        },
    }
}

/// The error sign of a stroke whose line across runs in direction `main_sign`.
pub open spec fn error_sign_of(start: Point, end: Point, main_sign: Sign) -> Sign {
    if main_sign == sign_sub_of(start, end) { Sign::Negative } else { Sign::Positive }
}

/// The pixels of the stroke of half-width `thickness` from `start` to `end`.
pub open spec fn thick_line_points(start: Point, end: Point, thickness: Length) -> Seq<Point> {
    let (p1, p2) = crate::objects::perpendicular_points(start, end, thickness);
    sweep(start, end, error_sign_of(start, end, sign_main_of(p1, p2)), LineIterator::line_infos(p1, p2, 0), 0, None)
}

impl ThickLine {
    spec fn points_from(&self) -> Seq<Point> {
        let current = match self.sub_line_iterator {
            Some(s) => points_of(s.infos()),
            None => Seq::empty(),
        };
        current + sweep(
            self.start,
            self.end,
            self.error_sign,
            self.main_line_iterator.infos(),
            self.perpendicular_error as int,
            self.special_line,
        )
    }

    /// The pixels that this stroke has yet to produce, in order.
    pub closed spec fn points(&self) -> Seq<Point> {
        self.points_from()
    }

    spec fn wf_from(&self) -> bool {
        &&& self.start.is_bounded()
        &&& self.end.is_bounded()
        &&& self.main_line_iterator.wf()
        &&& forall|i: int| 0 <= i < self.main_line_iterator.infos().len()
            ==> (#[trigger] self.main_line_iterator.infos()[i]).point.within(sweep_limit())
        &&& self.sub_line_iterator matches Some(s) ==> s.wf()
        &&& self.sub_delta_main == delta_main(self.start, self.end)
        &&& self.sub_delta_sub == delta_sub(self.start, self.end)
        &&& 0 <= self.perpendicular_error <= self.sub_delta_main <= 0x4000_0000
        &&& self.special_line matches Some(p) ==> {
            &&& self.perpendicular_error >= self.sub_delta_main - self.sub_delta_sub
            &&& p.within(sweep_limit() + 1)
        }
    }

    /// The internal invariant of the stroke.
    pub closed spec fn wf(&self) -> bool {
        self.wf_from()
    }
}

impl ThickLine {
    /// The stroke of half-width `thickness` around the line from `start` to `end`:
    /// parallel lines started from each pixel of the line across the stroke, from
    /// `start + thickness * n` to `start - thickness * n` for the unit normal `n`.
    pub fn new(start: Point, end: Point, thickness: Length) -> (r: ThickLine)
        requires
            start.is_bounded(),
            end.is_bounded(),
        ensures
            r.wf(),
            r.points() == thick_line_points(start, end, thickness),
            start == end ==> r.points() == seq![start],
    {
        let (main_point1, main_point2) = start.get_perpendicular_points(&end, thickness);
        let main_line_iterator = LineIterator::new(main_point1, main_point2);
        let (sub_delta_main, sub_delta_sub) = LineIterator::get_delta_values(start, end);
        let error_sign = (if main_line_iterator.get_sign_main() == LineIterator::get_sub_sign(start, end) {
            Sign::Positive
        } else {
            Sign::Negative
        }).negate();
        let r = ThickLine {
            start,
            end,
            main_line_iterator,
            sub_line_iterator: None,
            special_line: None,
            perpendicular_error: 0,
            error_sign,
            sub_delta_main: sub_delta_main as i64,
            sub_delta_sub: sub_delta_sub as i64,
        };
        proof {
            let infos = r.main_line_iterator.infos();
            assert forall|i: int| 0 <= i < infos.len() implies (#[trigger] infos[i]).point.within(sweep_limit()) by {
                assert(points_of(infos).len() == infos.len());
                assert(points_of(infos)[i] == infos[i].point);
                assert(line_points(main_point1, main_point2)[i] == line_point(main_point1, main_point2, i));
                lemma_line_point_between(main_point1, main_point2, i);
            }
            assert(r.wf());
            assert(r.points() =~= thick_line_points(start, end, thickness));
            if start == end {
                lemma_zero_length_stroke(start, thickness);
            }
        }
        r
    }

    /// The error offset of the next parallel line: the perpendicular error, signed.
    fn seed_offset(&self) -> (r: i32)
        requires
            0 <= self.perpendicular_error <= 0x4000_0000,
        ensures
            r == self.error_sign.value() * self.perpendicular_error,
    {
        let pe = self.perpendicular_error as i32;
        match self.error_sign {
            Sign::Positive => pe,
            Sign::Negative => -pe,
        }
    }

    /// The next pixel of the stroke, or `None` once every parallel line is done.
    #[verifier::rlimit(40)]
    pub fn next(&mut self) -> (r: Option<Point>)
        requires
            old(self).wf(),
        ensures
            final(self).wf(),
            r is None <==> old(self).points().len() == 0,
            r is None ==> final(self).points().len() == 0,
            r matches Some(p) ==> p == old(self).points()[0] && final(self).points() == old(self).points().drop_first(),
    {
        let ghost dm = self.sub_delta_main as int;
        let ghost ds = self.sub_delta_sub as int;
        loop
            invariant
                self.wf(),
                self.points() == old(self).points(),
                dm == self.sub_delta_main,
                ds == self.sub_delta_sub,
            decreases self.main_line_iterator.infos().len() * 2 + (if self.special_line is Some { 1int } else { 0 }),
        {
            let ghost rest = sweep(
                self.start,
                self.end,
                self.error_sign,
                self.main_line_iterator.infos(),
                self.perpendicular_error as int,
                self.special_line,
            );
            match self.sub_line_iterator.take() {
                Some(mut sub) => {
                    let ghost before = sub.infos();
                    let got = sub.next();
                    self.sub_line_iterator = Some(sub);
                    match got {
                        Some(info) => {
                            proof {
                                assert(old(self).points() == points_of(before) + rest);
                                assert(self.points() == points_of(before.drop_first()) + rest);
                                assert(points_of(before.drop_first()) =~= points_of(before).drop_first());
                                assert(old(self).points()[0] == info.point);
                                assert(self.points() =~= old(self).points().drop_first());
                            }
                            return Some(info.point);
                        },
                        None => {
                            assert(points_of(sub.infos()) =~= Seq::<Point>::empty());
                            assert(points_of(before) =~= Seq::<Point>::empty());
                        },
                    }
                },
                None => {},
            }
            assert(self.points() =~= rest);
            assert(old(self).points() =~= rest);
            let diff = self.end.sub(self.start);
            match self.special_line {
                Some(next_start_point) => {
                    proof {
                        assert(next_start_point.within(sweep_limit() + 1));
                    }
                    let new_end_point = next_start_point.add(diff);
                    self.perpendicular_error = self.perpendicular_error + self.sub_delta_sub - self.sub_delta_main;
                    let offset = self.seed_offset();
                    proof {
                        lemma_sub_line_fits(self.start, self.end, next_start_point, new_end_point);
                    }
                    let new_sub_line_iterator = LineIterator::new_with_error(next_start_point, new_end_point, offset);
                    self.sub_line_iterator = Some(new_sub_line_iterator);
                    self.special_line = None;
                    assert(self.points() =~= rest);
                },
                None => {
                    let ghost infos = self.main_line_iterator.infos();
                    match self.main_line_iterator.next() {
                        None => {
                            assert(self.points() =~= Seq::<Point>::empty());
                            return None;
                        },
                        Some(next_start_point_info) => {
                            let next_start_point = next_start_point_info.point;
                            proof {
                                assert(infos[0].point.within(sweep_limit()));
                                assert forall|i: int| 0 <= i < self.main_line_iterator.infos().len()
                                    implies (#[trigger] self.main_line_iterator.infos()[i]).point.within(sweep_limit()) by {
                                    assert(self.main_line_iterator.infos()[i] == infos[i + 1]);
                                }
                            }
                            let ghost pe0 = self.perpendicular_error as int;
                            let new_end_point = next_start_point.add(diff);
                            let offset = self.seed_offset();
                            proof {
                                lemma_sub_line_fits(self.start, self.end, next_start_point, new_end_point);
                            }
                            let new_sub_line_iterator = LineIterator::new_with_error(
                                next_start_point,
                                new_end_point,
                                offset,
                            );
                            if next_start_point_info.diagonal_move {
                                if self.perpendicular_error >= self.sub_delta_main - self.sub_delta_sub {
                                    let sub_sub_axis = new_sub_line_iterator.get_axis_main().other();
                                    let sub_sign = new_sub_line_iterator.get_sign_sub();
                                    let special_start_point = next_start_point.add_axis(sub_sub_axis, sub_sign.to_i32());
                                    self.special_line = Some(special_start_point);
                                } else {
                                    self.perpendicular_error = self.perpendicular_error + self.sub_delta_sub;
                                }
                            }
                            self.sub_line_iterator = Some(new_sub_line_iterator);
                            proof {
                                let info = infos[0];
                                let extra = info.diagonal_move && pe0 >= dm - ds;
                                let special2 = if extra { Some(special_point(self.start, self.end, info.point)) } else { None };
                                let pe2 = if info.diagonal_move && !extra { pe0 + ds } else { pe0 };
                                assert(info == next_start_point_info);
                                assert(self.special_line == special2);
                                assert(self.perpendicular_error == pe2);
                                assert(self.main_line_iterator.infos() == infos.drop_first());
                                assert(rest == sub_points(self.start, self.end, self.error_sign, info.point, pe0)
                                    + sweep(self.start, self.end, self.error_sign, infos.drop_first(), pe2, special2));
                                assert(points_of(new_sub_line_iterator.infos()) == sub_points(self.start, self.end, self.error_sign, info.point, pe0));
                            }
                            assert(self.points() =~= rest);
                        },
                    }
                },
            }
        }
    }

    /// Every remaining pixel of the stroke, in order, leaving it exhausted.
    pub fn collect_points(&mut self) -> (r: Vec<Point>)
        requires
            old(self).wf(),
        ensures
            final(self).wf(),
            r@ == old(self).points(),
            final(self).points().len() == 0,
    {
        let mut out: Vec<Point> = Vec::new();
        loop
            invariant
                self.wf(),
                old(self).points() == out@ + self.points(),
            decreases self.points().len(),
        {
            let ghost before = self.points();
            match self.next() {
                None => {
                    assert(out@ + self.points() =~= out@);
                    return out;
                },
                Some(p) => {
                    out.push(p);
                    assert(before =~= seq![p] + self.points());
                    assert(out@ + self.points() =~= (out@.drop_last() + seq![p]) + self.points());
                },
            }
        }
    }
}

/// A parallel line of a stroke between bounded points, started near the line across
/// the stroke, stays within `i32` however its error term is seeded, and keeps the
/// stroke's axes and directions.
proof fn lemma_sub_line_fits(start: Point, end: Point, p: Point, q: Point)
    requires
        start.is_bounded(),
        end.is_bounded(),
        p.within(sweep_limit() + 1),
        q.0 == p.0 + (end.0 - start.0),
        q.1 == p.1 + (end.1 - start.1),
    ensures
        crate::single_line::sweep_fits(p, q),
        q == shifted(p, start, end),
        major_axis(p, q) == major_axis(start, end),
        sign_sub_of(p, q) == sign_sub_of(start, end),
        delta_main(p, q) == delta_main(start, end),
        delta_sub(p, q) == delta_sub(start, end),
{
    match major_axis(start, end) {
        Axis::X => {},
        Axis::Y => {},
    }
}

/// With a stroke that has no minor-axis travel, the perpendicular error never
/// moves and no extra line is started: every pixel of the parallel line from each
/// remaining pixel of the line across is produced.
proof fn lemma_sweep_contains(start: Point, end: Point, error_sign: Sign, infos: Seq<PointInfo>, i: int, q: Point)
    requires
        delta_sub(start, end) == 0,
        delta_main(start, end) > 0,
        0 <= i < infos.len(),
        sub_points(start, end, error_sign, infos[i].point, 0).contains(q),
    ensures
        sweep(start, end, error_sign, infos, 0, None).contains(q),
    decreases i,
{
    let head = sub_points(start, end, error_sign, infos[0].point, 0);
    let rest = sweep(start, end, error_sign, infos.drop_first(), 0, None);
    assert(sweep(start, end, error_sign, infos, 0, None) == head + rest);
    if i == 0 {
        let k = choose|k: int| 0 <= k < head.len() && head[k] == q;
        assert((head + rest)[k] == q);
    } else {
        assert(infos.drop_first()[i - 1] == infos[i]);
        lemma_sweep_contains(start, end, error_sign, infos.drop_first(), i - 1, q);
        let k = choose|k: int| 0 <= k < rest.len() && rest[k] == q;
        assert((head + rest)[head.len() + k] == q);
    }
}

/// Every pixel between `p` and `p + d` on a horizontal line is a pixel of the line.
proof fn lemma_horizontal_line_contains(p: Point, e: Point, x: int)
    requires
        p.1 == e.1,
        between(x, p.0 as int, e.0 as int),
    ensures
        line_points(p, e).contains(Point(x as i32, p.1)),
{
    let dm = delta_main(p, e);
    let k = if e.0 >= p.0 { x - p.0 } else { p.0 - x };
    assert(major_axis(p, e) == Axis::X);
    assert(delta_sub(p, e) == 0);
    crate::single_line::lemma_straight_minor(p, e, k);
    if e.0 >= p.0 {
        assert(sign_main_of(p, e).value() == 1);
    } else {
        assert(sign_main_of(p, e).value() == -1);
    }
    assert(line_points(p, e)[k] == line_point(p, e, k));
    assert(line_point(p, e, k) == Point(x as i32, p.1));
}

/// A horizontal stroke covers its whole band: every pixel whose column lies between
/// the stroke's endpoints and whose row lies between its two perpendicular points.
pub proof fn lemma_horizontal_band(start: Point, end: Point, thickness: Length, x: int, y: int)
    requires
        start.is_bounded(),
        end.is_bounded(),
        start.1 == end.1,
        start.0 != end.0,
        between(x, start.0 as int, end.0 as int),
        between(
            y,
            crate::objects::perpendicular_points(start, end, thickness).0.1 as int,
            crate::objects::perpendicular_points(start, end, thickness).1.1 as int,
        ),
    ensures
        thick_line_points(start, end, thickness).contains(Point(x as i32, y as i32)),
{
    let (p1, p2) = crate::objects::perpendicular_points(start, end, thickness);
    let dx = end.0 - start.0;
    let s = (dx * dx + 0 * 0) * 65536;
    assert(s > 0) by (nonlinear_arith)
        requires s == (dx * dx + 0 * 0) * 65536, dx != 0;
    assert(crate::objects::is_nearest_ratio(0, 0, s)) by (nonlinear_arith)
        requires s > 0;
    crate::objects::lemma_nearest_ratio_unique(0, 0, s);
    assert(abs(0) * thickness.units == 0);
    assert(p1.0 == start.0 && p2.0 == start.0);
    // The line across the stroke: one pixel for each row between p1 and p2.
    let infos = LineIterator::line_infos(p1, p2, 0);
    lemma_line_infos_points(p1, p2);
    let k = if p2.1 >= p1.1 { y - p1.1 } else { p1.1 - y };
    let dm_main = delta_main(p1, p2);
    assert(0 <= k <= dm_main);
    assert(points_of(infos).len() == infos.len());
    assert(points_of(infos)[k] == infos[k].point);
    assert(line_points(p1, p2)[k] == line_point(p1, p2, k));
    if dm_main > 0 {
        assert(major_axis(p1, p2) == Axis::Y);
        assert(delta_sub(p1, p2) == 0);
        crate::single_line::lemma_straight_minor(p1, p2, k);
    } else {
        assert(k == 0);
    }
    let sm = sign_main_of(p1, p2).value();
    if p2.1 >= p1.1 {
        assert(sm == 1);
        assert(p1.1 + sm * k == y) by (nonlinear_arith)
            requires sm == 1, k == y - p1.1;
    } else {
        assert(sm == -1);
        assert(p1.1 + sm * k == y) by (nonlinear_arith)
            requires sm == -1, k == p1.1 - y;
    }
    let p = infos[k].point;
    assert(p == Point(start.0, y as i32));
    // The parallel line from that pixel runs across every column of the stroke.
    let e = shifted(p, start, end);
    assert(e == Point(end.0, y as i32));
    lemma_line_infos_points(p, e);
    lemma_horizontal_line_contains(p, e, x);
    let error_sign = error_sign_of(start, end, sign_main_of(p1, p2));
    assert(error_sign.value() * 0 == 0);
    assert(sub_points(start, end, error_sign, p, 0) == line_points(p, e));
    lemma_sweep_contains(start, end, error_sign, infos, k, Point(x as i32, y as i32));
}

/// Every pixel between `p` and `e` on a vertical line is a pixel of the line.
proof fn lemma_vertical_line_contains(p: Point, e: Point, y: int)
    requires
        p.0 == e.0,
        p.1 != e.1,
        between(y, p.1 as int, e.1 as int),
    ensures
        line_points(p, e).contains(Point(p.0, y as i32)),
{
    let dm = delta_main(p, e);
    let k = if e.1 >= p.1 { y - p.1 } else { p.1 - y };
    assert(major_axis(p, e) == Axis::Y);
    assert(delta_sub(p, e) == 0);
    crate::single_line::lemma_straight_minor(p, e, k);
    if e.1 >= p.1 {
        assert(sign_main_of(p, e).value() == 1);
    } else {
        assert(sign_main_of(p, e).value() == -1);
    }
    assert(line_points(p, e)[k] == line_point(p, e, k));
    assert(line_point(p, e, k) == Point(p.0, y as i32));
}

/// A vertical stroke covers its whole band: every pixel whose row lies between the
/// stroke's endpoints and whose column lies between its two perpendicular points.
pub proof fn lemma_vertical_band(start: Point, end: Point, thickness: Length, x: int, y: int)
    requires
        start.is_bounded(),
        end.is_bounded(),
        start.0 == end.0,
        start.1 != end.1,
        between(y, start.1 as int, end.1 as int),
        between(
            x,
            crate::objects::perpendicular_points(start, end, thickness).0.0 as int,
            crate::objects::perpendicular_points(start, end, thickness).1.0 as int,
        ),
    ensures
        thick_line_points(start, end, thickness).contains(Point(x as i32, y as i32)),
{
    let (p1, p2) = crate::objects::perpendicular_points(start, end, thickness);
    let dy = end.1 - start.1;
    let s = (0 * 0 + dy * dy) * 65536;
    assert(s > 0) by (nonlinear_arith)
        requires s == (0 * 0 + dy * dy) * 65536, dy != 0;
    assert(crate::objects::is_nearest_ratio(0, 0, s)) by (nonlinear_arith)
        requires s > 0;
    crate::objects::lemma_nearest_ratio_unique(0, 0, s);
    assert(abs(0) * thickness.units == 0);
    assert(p1.1 == start.1 && p2.1 == start.1);
    // The line across the stroke: one pixel for each column between p1 and p2.
    let infos = LineIterator::line_infos(p1, p2, 0);
    lemma_line_infos_points(p1, p2);
    let k = if p2.0 >= p1.0 { x - p1.0 } else { p1.0 - x };
    let dm_main = delta_main(p1, p2);
    assert(major_axis(p1, p2) == Axis::X);
    assert(delta_sub(p1, p2) == 0);
    assert(0 <= k <= dm_main);
    assert(points_of(infos).len() == infos.len());
    assert(points_of(infos)[k] == infos[k].point);
    assert(line_points(p1, p2)[k] == line_point(p1, p2, k));
    if dm_main > 0 {
        crate::single_line::lemma_straight_minor(p1, p2, k);
    } else {
        assert(k == 0);
    }
    let sm = sign_main_of(p1, p2).value();
    if p2.0 >= p1.0 {
        assert(sm == 1);
        assert(p1.0 + sm * k == x) by (nonlinear_arith)
            requires sm == 1, k == x - p1.0;
    } else {
        assert(sm == -1);
        assert(p1.0 + sm * k == x) by (nonlinear_arith)
            requires sm == -1, k == p1.0 - x;
    }
    let p = infos[k].point;
    assert(p == Point(x as i32, start.1));
    // The parallel line from that pixel runs across every row of the stroke.
    let e = shifted(p, start, end);
    assert(e == Point(x as i32, end.1));
    lemma_line_infos_points(p, e);
    lemma_vertical_line_contains(p, e, y);
    let error_sign = error_sign_of(start, end, sign_main_of(p1, p2));
    assert(error_sign.value() * 0 == 0);
    assert(sub_points(start, end, error_sign, p, 0) == line_points(p, e));
    lemma_sweep_contains(start, end, error_sign, infos, k, Point(x as i32, y as i32));
}

/// A line from a point to itself is that one pixel, with no diagonal move.
proof fn lemma_point_line(p: Point, offset: int)
    requires
        offset == 0,
    ensures
        LineIterator::line_infos(p, p, offset) == seq![PointInfo { point: p, diagonal_move: false }],
{
    let infos = LineIterator::line_infos(p, p, offset);
    assert(major_axis(p, p) == Axis::X);
    assert(delta_main(p, p) == 0 && delta_sub(p, p) == 0);
    assert(crate::single_line::tie_shift(p, p) == 1);
    let rest = crate::single_line::bresenham(Axis::X, 1, 1, 0, 0, p.0 + 1, p.1 as int, -1, 0);
    assert(rest == Seq::<PointInfo>::empty());
    assert(crate::single_line::point_on_axes(Axis::X, p.0 as int, p.1 as int) == p);
    assert(infos =~= seq![PointInfo { point: p, diagonal_move: false }]);
}

/// A stroke from a point to itself is that one pixel: a zero direction gives a zero
/// offset, and the one-pixel line across the stroke starts no extra line.
pub proof fn lemma_zero_length_stroke(p: Point, thickness: Length)
    ensures
        thick_line_points(p, p, thickness) == seq![p],
{
    let (p1, p2) = crate::objects::perpendicular_points(p, p, thickness);
    assert((0 * 0 + 0 * 0) * 65536 == 0);
    assert(p1 == p && p2 == p);
    lemma_point_line(p, 0);
    let error_sign = error_sign_of(p, p, sign_main_of(p, p));
    let infos = LineIterator::line_infos(p, p, 0);
    assert(shifted(p, p, p) == p);
    assert(error_sign.value() * 0 == 0);
    let head = sub_points(p, p, error_sign, p, 0);
    assert(points_of(infos) =~= seq![p]);
    assert(head == seq![p]);
    assert(infos.drop_first() =~= Seq::<PointInfo>::empty());
    assert(sweep(p, p, error_sign, infos.drop_first(), 0, None) == Seq::<Point>::empty());
    assert(sweep(p, p, error_sign, infos, 0, None) == head + Seq::<Point>::empty());
    assert(head + Seq::<Point>::empty() =~= seq![p]);
}

} // verus!
