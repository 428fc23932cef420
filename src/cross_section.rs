//! How much coverage a cross-section of an axis-aligned antialiased stroke adds up to.

use vstd::prelude::*;
use crate::antialias_thick_line::{
    candidate, cell, centre_offset, clamp, coverage_of, distance_num, distance_units, frame,
    half_units, is_covered, len_sq, row_prefix, window, Coverage,
};
use crate::objects::{abs, is_nearest_ratio, lemma_nearest_ratio_unique, Length, Point};
use vstd::arithmetic::div_mod::{lemma_fundamental_div_mod, lemma_fundamental_div_mod_converse, lemma_mod_bound};

verus! {

/// The sum of the coverage of some records.
pub open spec fn coverage_sum(records: Seq<Coverage>) -> int
    decreases records.len(),
{
    if records.len() == 0 {
        0
    } else {
        coverage_sum(records.drop_last()) + records.last().intensity
    }
}

/// The coverage of the pixel `t` pixels off the centre of an axis-aligned stroke of
/// half-width `half` (sub-pixel units); zero where no record is made.
pub open spec fn band_coverage(half: int, t: int) -> int {
    if 256 * abs(t) < half + 256 { clamp(half + 128 - 256 * abs(t), 0, 256) } else { 0 }
}

/// `band_coverage` summed over the offsets `lo .. hi`.
pub open spec fn band_sum(half: int, lo: int, hi: int) -> int
    decreases hi - lo,
{
    if hi <= lo { 0 } else { band_sum(half, lo, hi - 1) + band_coverage(half, hi - 1) }
}

proof fn lemma_band_single(half: int, a: int)
    ensures
        band_sum(half, a, a + 1) == band_coverage(half, a),
{
    assert(band_sum(half, a, a) == 0);
}

proof fn lemma_coverage_sum_single(c: Coverage)
    ensures
        coverage_sum(seq![c]) == c.intensity,
{
    assert(seq![c].drop_last() =~= Seq::<Coverage>::empty());
    assert(coverage_sum(Seq::<Coverage>::empty()) == 0);
}

proof fn lemma_band_split(half: int, lo: int, mid: int, hi: int)
    requires
        lo <= mid <= hi,
    ensures
        band_sum(half, lo, hi) == band_sum(half, lo, mid) + band_sum(half, mid, hi),
    decreases hi - mid,
{
    if hi > mid {
        lemma_band_split(half, lo, mid, hi - 1);
    }
}

proof fn lemma_band_zero(half: int, lo: int, hi: int)
    requires
        forall|t: int| lo <= t < hi ==> band_coverage(half, t) == 0,
    ensures
        band_sum(half, lo, hi) == 0,
    decreases hi - lo,
{
    if hi > lo {
        lemma_band_zero(half, lo, hi - 1);
    }
}

proof fn lemma_band_full(half: int, lo: int, hi: int)
    requires
        lo <= hi,
        forall|t: int| lo <= t < hi ==> band_coverage(half, t) == 256,
    ensures
        band_sum(half, lo, hi) == 256 * (hi - lo),
    decreases hi - lo,
{
    if hi > lo {
        lemma_band_full(half, lo, hi - 1);
    }
}

/// The pixels across an axis-aligned stroke of half-width `half`, examined
/// `range` pixels either side of the centre, add up to the width, or to half a pixel
/// more than the half-width for a stroke under a pixel wide.
proof fn lemma_band_total(half: int, range: int)
    requires
        half >= 0,
        range == (half + 384 + 255) / 256,
    ensures
        band_sum(half, -range, range + 1) == if half >= 128 { 2 * half } else { half + 128 },
{
    lemma_fundamental_div_mod(half, 256);
    lemma_mod_bound(half, 256);
    let h = half / 256;
    let r = half % 256;
    assert(half == 256 * h + r);
    assert(h >= 0) by (nonlinear_arith)
        requires half == 256 * h + r, 0 <= r < 256, half >= 0;
    lemma_fundamental_div_mod(half + 639, 256);
    lemma_mod_bound(half + 639, 256);
    assert(range >= h + 2) by (nonlinear_arith)
        requires
            half + 639 == 256 * range + (half + 639) % 256,
            0 <= (half + 639) % 256 < 256,
            half == 256 * h + r,
            0 <= r < 256,
    ;
    let f1 = band_coverage(half, h + 1);
    assert(band_coverage(half, h) == if r + 128 > 256 { 256 } else { r + 128 });
    assert(band_coverage(half, -h) == band_coverage(half, h));
    assert(f1 == if r > 128 { r - 128 } else { 0 });
    assert(band_coverage(half, -h - 1) == f1);
    assert forall|t: int| -range <= t < -h - 1 || h + 2 <= t < range + 1 implies band_coverage(half, t) == 0 by {
        assert(256 * abs(t) >= 256 * (h + 2)) by (nonlinear_arith)
            requires abs(t) >= h + 2;
    }
    lemma_band_zero(half, -range, -h - 1);
    lemma_band_zero(half, h + 2, range + 1);
    if h >= 1 {
        assert forall|t: int| -h + 1 <= t < h implies band_coverage(half, t) == 256 by {
            assert(256 * abs(t) <= 256 * (h - 1)) by (nonlinear_arith)
                requires abs(t) <= h - 1;
        }
        lemma_band_full(half, -h + 1, h);
        lemma_band_split(half, -range, -h - 1, range + 1);
        lemma_band_split(half, -h - 1, -h, range + 1);
        lemma_band_split(half, -h, -h + 1, range + 1);
        lemma_band_split(half, -h + 1, h, range + 1);
        lemma_band_split(half, h, h + 1, range + 1);
        lemma_band_split(half, h + 1, h + 2, range + 1);
        lemma_band_single(half, -h - 1);
        lemma_band_single(half, -h);
        lemma_band_single(half, h);
        lemma_band_single(half, h + 1);
        let c = if r + 128 > 256 { 256 } else { r + 128 };
        assert(band_sum(half, -range, range + 1) == f1 + c + 256 * (2 * h - 1) + c + f1);
    } else {
        lemma_band_split(half, -range, -1, range + 1);
        lemma_band_split(half, -1, 0, range + 1);
        lemma_band_split(half, 0, 1, range + 1);
        lemma_band_split(half, 1, 2, range + 1);
        lemma_band_single(half, -1);
        lemma_band_single(half, 0);
        lemma_band_single(half, 1);
        assert(h == 0 && half == r);
    }
}

proof fn lemma_coverage_sum_push(a: Seq<Coverage>, b: Seq<Coverage>)
    requires
        b.len() <= 1,
    ensures
        coverage_sum(a + b) == coverage_sum(a) + if b.len() == 1 { b[0].intensity as int } else { 0 },
{
    if b.len() == 1 {
        assert((a + b).drop_last() =~= a);
    } else {
        assert(a + b =~= a);
    }
}

/// A stroke along one of the grid axes.
pub open spec fn is_axis_aligned(start: Point, end: Point) -> bool {
    (start.1 == end.1 && start.0 != end.0) || (start.0 == end.0 && start.1 != end.1)
}

/// The length of a stroke along one of the grid axes.
pub open spec fn axis_length(start: Point, end: Point) -> int {
    abs(end.0 - start.0) + abs(end.1 - start.1)
}

/// The cell of an axis-aligned stroke `t` pixels off the centre.
proof fn lemma_aligned_cell(start: Point, end: Point, width: Length, k: int, j: int)
    requires
        start.is_bounded(),
        end.is_bounded(),
        is_axis_aligned(start, end),
        0 <= k <= axis_length(start, end),
        0 <= j <= 2 * window(width),
    ensures
        coverage_sum(cell(start, end, width, k, j)) == band_coverage(half_units(width), j - window(width)),
        cell(start, end, width, k, j).len() <= 1,
{
    let (steep, x0, y0, x1, y1) = frame(start, end);
    let horizontal = start.1 == end.1;
    let dx = end.0 - start.0;
    let dy = end.1 - start.1;
    let d = if horizontal { dx } else { dy };
    let half = half_units(width);
    let range = window(width);
    let t = j - range;
    assert(steep == !horizontal);
    assert(x1 - x0 == abs(d) && y1 - y0 == 0);
    lemma_fundamental_div_mod_converse(abs(d), 2 * abs(d), 0, abs(d));
    assert(centre_offset(k, x1 - x0, y1 - y0) == 0);
    assert(range <= 0x80_0003);
    let p = candidate(start, end, width, k, j);
    let off = if horizontal { p.1 - start.1 } else { p.0 - start.0 };
    assert(off == t);
    let s = len_sq(start, end);
    assert(s == d * d);
    assert(s > 0) by (nonlinear_arith)
        requires s == d * d, d != 0;
    let at = abs(t);
    let ad = abs(d);
    if horizontal {
        assert(distance_num(start, end, p) == ad * at) by (nonlinear_arith)
            requires
                distance_num(start, end, p) == abs(dx * (p.1 - start.1) - dy * (p.0 - start.0)),
                dy == 0,
                d == dx,
                p.1 - start.1 == t,
                at == abs(t),
                ad == abs(d),
        ;
    } else {
        assert(distance_num(start, end, p) == ad * at) by (nonlinear_arith)
            requires
                distance_num(start, end, p) == abs(dx * (p.1 - start.1) - dy * (p.0 - start.0)),
                dx == 0,
                d == dy,
                p.0 - start.0 == t,
                at == abs(t),
                ad == abs(d),
        ;
    }
    let m = ad * at;
    let n = 256 * at;
    assert(d * d == ad * ad) by (nonlinear_arith)
        requires ad == abs(d);
    assert(is_nearest_ratio(n, 256 * m, s)) by (nonlinear_arith)
        requires
            n == 256 * at,
            m == ad * at,
            s == ad * ad,
            at >= 0,
            ad > 0,
    ;
    lemma_nearest_ratio_unique(n, 256 * m, s);
    assert(distance_units(start, end, p) == n);
    assert(is_covered(start, end, width, p) == (256 * at < half + 256)) by (nonlinear_arith)
        requires
            is_covered(start, end, width, p) == (s == 0 || 65536 * m * m < (half + 256) * (half + 256) * s),
            s == ad * ad,
            ad > 0,
            m == ad * at,
            at >= 0,
            half >= 0,
    ;
    if is_covered(start, end, width, p) {
        assert(coverage_of(start, end, width, p) == clamp(half + 128 - n, 0, 256));
        let c = Coverage { point: p, intensity: coverage_of(start, end, width, p) as u32 };
        assert(cell(start, end, width, k, j) == seq![c]);
        lemma_coverage_sum_single(c);
    } else {
        assert(cell(start, end, width, k, j) == Seq::<Coverage>::empty());
    }
}

proof fn lemma_aligned_row(start: Point, end: Point, width: Length, k: int, j: int)
    requires
        start.is_bounded(),
        end.is_bounded(),
        is_axis_aligned(start, end),
        0 <= k <= axis_length(start, end),
        0 <= j <= 2 * window(width) + 1,
    ensures
        coverage_sum(row_prefix(start, end, width, k, j))
            == band_sum(half_units(width), -window(width), j - window(width)),
    decreases j,
{
    if j > 0 {
        lemma_aligned_row(start, end, width, k, j - 1);
        lemma_aligned_cell(start, end, width, k, j - 1);
        let a = row_prefix(start, end, width, k, j - 1);
        let b = cell(start, end, width, k, j - 1);
        lemma_coverage_sum_push(a, b);
        if b.len() == 1 {
            assert(b =~= seq![b[0]]);
            lemma_coverage_sum_single(b[0]);
        } else {
            assert(b =~= Seq::<Coverage>::empty());
        }
    }
}

/// Across a horizontal or vertical antialiased stroke, the coverage that the pixels
/// of any one cross-section receive (the records of one step) adds up to the
/// stroke's width, twice its half-width; for a stroke under a pixel wide, to half a
/// pixel more than its half-width. Either way it lies within half a pixel of twice
/// the half-width.
pub proof fn lemma_aligned_cross_section(start: Point, end: Point, width: Length, k: int)
    requires
        start.is_bounded(),
        end.is_bounded(),
        is_axis_aligned(start, end),
        0 <= k <= axis_length(start, end),
    ensures
        coverage_sum(row_prefix(start, end, width, k, 2 * window(width) + 1))
            == if half_units(width) >= 128 { 2 * half_units(width) } else { half_units(width) + 128 },
        abs(coverage_sum(row_prefix(start, end, width, k, 2 * window(width) + 1)) - 2 * half_units(width)) <= 128,
{
    lemma_aligned_row(start, end, width, k, 2 * window(width) + 1);
    lemma_band_total(half_units(width), window(width));
}

} // verus!
