//! What holds of the loop filter: how strong it is, which boundaries it leaves, and what
//! it does to the samples on either side of one.
use super::deblock::{filter_level, high_variance, is_edge, limited, narrow_base, narrowed, put_tap, sample_filtered, side_limit, strength, tap, wide_sum, wide_value, Filtering, Strength};
use super::frame::LoopFilterModel;
use super::plane::{lemma_with, Samples};
use super::surroundings::transposes;
use crate::math::{abs, clamp, lemma_p2_mono, lemma_p2_values, p2, round2};
use vstd::prelude::*;

verus! {

/// A level is the frame's, of its own for each direction of luma and for each plane of
/// chroma, held to 63; a delta raises it, twice as much from 32 on.
pub proof fn lemma_levels_of_the_frame(lf: LoopFilterModel, plane: int, pass: int)
    requires
        0 <= plane <= 2,
        0 <= pass <= 1,
        lf.level.len() == 4,
        forall|i: int| 0 <= i < 4 ==> 0 <= #[trigger] lf.level[i] <= 63,
    ensures
        ({
            let base = if plane == 0 && pass == 0 {
                lf.level[0]
            } else if plane == 0 {
                lf.level[1]
            } else if plane == 1 {
                lf.level[2]
            } else {
                lf.level[3]
            };
            let raised = base + lf.ref_deltas[0] * if base < 32 {
                1int
            } else {
                2
            };
            let v = filter_level(lf, plane, pass);
            &&& 0 <= v <= 63
            &&& !lf.delta_enabled ==> v == base
            &&& lf.delta_enabled && 0 <= raised <= 63 ==> v == raised
            &&& lf.delta_enabled && raised < 0 ==> v == 0
            &&& lf.delta_enabled && raised > 63 ==> v == 63
        }),
{
    lemma_p2_values();
    assert(0 <= lf.level[0] <= 63 && 0 <= lf.level[1] <= 63 && 0 <= lf.level[2] <= 63 && 0 <= lf.level[3] <= 63);
    let base = if plane == 0 && pass == 0 {
        lf.level[0]
    } else if plane == 0 {
        lf.level[1]
    } else if plane == 1 {
        lf.level[2]
    } else {
        lf.level[3]
    } as int;
    assert(base < 32 ==> base / 32 == 0);
    assert(base >= 32 ==> base / 32 == 1);
}

/// Sharpness never widens what may differ: with none the limit is the level, from one up to
/// four at most half of it and from five on at most a quarter, and never more than nine less
/// the sharpness. It is at least one.
pub proof fn lemma_sharpness_narrows(lf: LoopFilterModel, lvl: int)
    requires
        0 <= lvl <= 63,
        0 <= lf.sharpness <= 7,
    ensures
        ({
            let v = side_limit(lf, lvl);
            let s = lf.sharpness;
            &&& 1 <= v
            &&& s == 0 && lvl >= 1 ==> v == lvl
            &&& s > 0 ==> v <= 9 - s
            &&& 0 < s <= 4 ==> v == 1 || 2 * v <= lvl
            &&& s > 4 ==> v == 1 || 4 * v <= lvl
            &&& 0 < s <= 4 && lvl / 2 <= 9 - s && lvl >= 2 ==> v == lvl / 2
            &&& s > 4 && lvl / 4 <= 9 - s && lvl >= 4 ==> v == lvl / 4
        }),
{
    lemma_p2_values();
}

/// The limits at a boundary follow from the level: twice the level and two more, and once
/// the limit on either side; variance is high above a sixteenth of the level.
pub proof fn lemma_limits_follow_the_level(lf: LoopFilterModel, plane: int, pass: int)
    requires
        0 <= lf.sharpness <= 7,
        0 <= filter_level(lf, plane, pass) <= 63,
    ensures
        ({
            let s = strength(lf, plane, pass);
            &&& s.lvl == filter_level(lf, plane, pass)
            &&& s.limit == side_limit(lf, s.lvl as int)
            &&& s.blimit - s.limit == 2 * s.lvl + 4
            &&& 16 * s.thresh <= s.lvl < 16 * s.thresh + 16
        }),
{
    lemma_p2_values();
}

/// A boundary is left alone where the samples at it differ by more than half its limit, or
/// neighbours on one side by more than theirs: it is an edge of the picture.
pub proof fn lemma_edges_of_the_picture_stay(p: Samples, plane: int, pass: int, x: int, y: int, s: Strength, size: int, bd: int)
    requires
        8 <= bd <= 16,
    ensures
        ({
            let one = p2(bd - 8);
            let (p1, p0) = (tap(p, pass, x, y, -2), tap(p, pass, x, y, -1));
            let (q0, q1) = (tap(p, pass, x, y, 0), tap(p, pass, x, y, 1));
            let far = p0 - q0 > 0 && 2 * (p0 - q0) > s.blimit * one || q0 - p0 > 0 && 2 * (q0 - p0) > s.blimit * one;
            let rough = abs(p1 - p0) > s.limit * one || abs(q1 - q0) > s.limit * one;
            far || rough ==> sample_filtered(p, plane, pass, x, y, s, size, bd) == p
        }),
{
    reveal(sample_filtered);
}

/// The place a step across a boundary.
pub open spec fn beside(pass: int, x: int, y: int, k: int) -> (int, int) {
    if pass == 0 {
        (x + k, y)
    } else {
        (x, y + k)
    }
}

/// Whether a plane has the places up to two steps before and one behind a boundary.
pub open spec fn spans(p: Samples, pass: int, x: int, y: int) -> bool {
    &&& p.wf()
    &&& p.has(beside(pass, x, y, -2).0, beside(pass, x, y, -2).1)
    &&& p.has(beside(pass, x, y, 1).0, beside(pass, x, y, 1).1)
}

/// Setting a sample across a boundary changes that one and no other.
proof fn lemma_put_tap(p: Samples, pass: int, x: int, y: int, k: int, value: int, m: int)
    requires
        spans(p, pass, x, y),
        -2 <= k <= 1,
        -2 <= m <= 1,
        0 <= value <= 0xFFFF,
    ensures
        spans(put_tap(p, pass, x, y, k, value), pass, x, y),
        tap(put_tap(p, pass, x, y, k, value), pass, x, y, m) == (if m == k {
            value
        } else {
            tap(p, pass, x, y, m)
        }),
{
    let (u, v) = beside(pass, x, y, m);
    let (a, b) = beside(pass, x, y, k);
    lemma_with(p, a, b, value as u16, u, v);
}

/// The narrow filter without high variance brings the two samples at a boundary nearer to
/// each other, never past each other, and keeps their sum to within one; their outer
/// neighbours follow by half as much. Equal samples stay.
pub proof fn lemma_narrow_filter_closes(p: Samples, pass: int, x: int, y: int, bd: int)
    requires
        spans(p, pass, x, y),
        8 <= bd <= 16,
        forall|k: int| -2 <= k <= 1 ==> 0 <= #[trigger] tap(p, pass, x, y, k) < p2(bd),
    ensures
        ({
            let r = narrowed(p, pass, x, y, false, bd);
            let (p1, p0) = (tap(p, pass, x, y, -2), tap(p, pass, x, y, -1));
            let (q0, q1) = (tap(p, pass, x, y, 0), tap(p, pass, x, y, 1));
            let (u1, u0) = (tap(r, pass, x, y, -2), tap(r, pass, x, y, -1));
            let (v0, v1) = (tap(r, pass, x, y, 0), tap(r, pass, x, y, 1));
            &&& p0 <= q0 ==> p0 <= u0 && u0 <= v0 && v0 <= q0 && p1 <= u1 && v1 <= q1
            &&& q0 <= p0 ==> q0 <= v0 && v0 <= u0 && u0 <= p0 && u1 <= p1 && q1 <= v1
            &&& -1 <= (u0 + v0) - (p0 + q0) <= 1
            &&& p0 == q0 ==> u0 == p0 && v0 == q0 && u1 == p1 && v1 == q1
            &&& p0 <= q0 ==> 2 * (u1 - p1) <= q0 - v0 + 1 && 2 * (q1 - v1) <= q0 - v0 + 1
            &&& q0 - p0 >= 2 && q0 < p0 + 42 ==> u0 > p0 && v0 < q0
        }),
{
    let b = p2(bd - 1);
    lemma_p2_values();
    lemma_p2_mono(7, bd - 1);
    lemma_p2_mono(bd, 16);
    assert(p2(bd) == 2 * b);
    let (p1, p0) = (tap(p, pass, x, y, -2), tap(p, pass, x, y, -1));
    let (q0, q1) = (tap(p, pass, x, y, 0), tap(p, pass, x, y, 1));
    assert(0 <= p1 < 2 * b && 0 <= p0 < 2 * b && 0 <= q0 < 2 * b && 0 <= q1 < 2 * b);
    let base = narrow_base(p, pass, x, y, false, bd);
    assert(base == limited(3 * (q0 - p0), bd));
    let (f1, f2) = (limited(base + 4, bd) / 8, limited(base + 3, bd) / 8);
    let f = round2(f1, 1);
    let (s0, s1) = (limited(q0 - b - f1, bd) + b, limited(p0 - b + f2, bd) + b);
    let (s2, s3) = (limited(q1 - b - f, bd) + b, limited(p1 - b + f, bd) + b);
    let a0 = put_tap(p, pass, x, y, 0, s0);
    let a1 = put_tap(a0, pass, x, y, -1, s1);
    let a2 = put_tap(a1, pass, x, y, 1, s2);
    let a3 = put_tap(a2, pass, x, y, -2, s3);
    assert(narrowed(p, pass, x, y, false, bd) == a3);
    lemma_four_taps(p, pass, x, y, s0, s1, s2, s3);
    assert(f == (f1 + 1) / 2);
}

/// Four samples across a boundary set one after the other.
proof fn lemma_four_taps(p: Samples, pass: int, x: int, y: int, s0: int, s1: int, s2: int, s3: int)
    requires
        spans(p, pass, x, y),
        0 <= s0 <= 0xFFFF,
        0 <= s1 <= 0xFFFF,
        0 <= s2 <= 0xFFFF,
        0 <= s3 <= 0xFFFF,
    ensures
        ({
            let a1 = put_tap(put_tap(p, pass, x, y, 0, s0), pass, x, y, -1, s1);
            let a3 = put_tap(put_tap(a1, pass, x, y, 1, s2), pass, x, y, -2, s3);
            &&& tap(a1, pass, x, y, 0) == s0
            &&& tap(a1, pass, x, y, -1) == s1
            &&& tap(a1, pass, x, y, 1) == tap(p, pass, x, y, 1)
            &&& tap(a1, pass, x, y, -2) == tap(p, pass, x, y, -2)
            &&& tap(a3, pass, x, y, 0) == s0
            &&& tap(a3, pass, x, y, -1) == s1
            &&& tap(a3, pass, x, y, 1) == s2
            &&& tap(a3, pass, x, y, -2) == s3
        }),
{
    let a0 = put_tap(p, pass, x, y, 0, s0);
    let a1 = put_tap(a0, pass, x, y, -1, s1);
    let a2 = put_tap(a1, pass, x, y, 1, s2);
    lemma_put_tap(p, pass, x, y, 0, s0, 0);
    lemma_put_tap(p, pass, x, y, 0, s0, 1);
    lemma_put_tap(p, pass, x, y, 0, s0, -1);
    lemma_put_tap(p, pass, x, y, 0, s0, -2);
    lemma_put_tap(a0, pass, x, y, -1, s1, 0);
    lemma_put_tap(a0, pass, x, y, -1, s1, 1);
    lemma_put_tap(a0, pass, x, y, -1, s1, -1);
    lemma_put_tap(a0, pass, x, y, -1, s1, -2);
    lemma_put_tap(a1, pass, x, y, 1, s2, 0);
    lemma_put_tap(a1, pass, x, y, 1, s2, 1);
    lemma_put_tap(a1, pass, x, y, 1, s2, -1);
    lemma_put_tap(a1, pass, x, y, 1, s2, -2);
    lemma_put_tap(a2, pass, x, y, -2, s3, 0);
    lemma_put_tap(a2, pass, x, y, -2, s3, 1);
    lemma_put_tap(a2, pass, x, y, -2, s3, -1);
    lemma_put_tap(a2, pass, x, y, -2, s3, -2);
}

/// Where variance is high the narrow filter leaves the outer neighbours.
pub proof fn lemma_high_variance_keeps_the_outer(p: Samples, pass: int, x: int, y: int, bd: int)
    requires
        spans(p, pass, x, y),
        8 <= bd <= 16,
        forall|k: int| -2 <= k <= 1 ==> 0 <= #[trigger] tap(p, pass, x, y, k) < p2(bd),
    ensures
        ({
            let r = narrowed(p, pass, x, y, true, bd);
            &&& tap(r, pass, x, y, -2) == tap(p, pass, x, y, -2)
            &&& tap(r, pass, x, y, 1) == tap(p, pass, x, y, 1)
        }),
{
    let b = p2(bd - 1);
    lemma_p2_values();
    lemma_p2_mono(7, bd - 1);
    lemma_p2_mono(bd, 16);
    assert(p2(bd) == 2 * b);
    let (p1, p0) = (tap(p, pass, x, y, -2), tap(p, pass, x, y, -1));
    let (q0, q1) = (tap(p, pass, x, y, 0), tap(p, pass, x, y, 1));
    assert(0 <= p1 < 2 * b && 0 <= p0 < 2 * b && 0 <= q0 < 2 * b && 0 <= q1 < 2 * b);
    let base = narrow_base(p, pass, x, y, true, bd);
    let (f1, f2) = (limited(base + 4, bd) / 8, limited(base + 3, bd) / 8);
    let (s0, s1) = (limited(q0 - b - f1, bd) + b, limited(p0 - b + f2, bd) + b);
    lemma_four_taps(p, pass, x, y, s0, s1, 0, 0);
}

/// Whether the samples across a boundary of one plane are those of another in mirror order.
pub open spec fn mirrors(p: Samples, q: Samples, pass: int, x: int, y: int, n: int) -> bool {
    forall|k: int| -(n + 1) <= k <= n ==> #[trigger] tap(q, pass, x, y, k) == tap(p, pass, x, y, -1 - k)
}

/// The wide filter does not tell one side from the other: on mirrored samples its values are
/// mirrored.
pub proof fn lemma_wide_filter_mirrors(p: Samples, q: Samples, pass: int, x: int, y: int, n: int, n2: int, log2: int, i: int)
    requires
        mirrors(p, q, pass, x, y, n),
        0 <= n,
        -n <= i < n,
    ensures
        wide_value(q, pass, x, y, n, n2, log2, -1 - i) == wide_value(p, pass, x, y, n, n2, log2, i),
{
    lemma_wide_sums_meet(p, q, pass, x, y, n, n2, i, n + 1);
    assert(wide_sum(p, pass, x, y, n, n2, i, -n) == 0);
}

/// What is added from one end on one plane is what is left to add on the other.
proof fn lemma_wide_sums_meet(p: Samples, q: Samples, pass: int, x: int, y: int, n: int, n2: int, i: int, to: int)
    requires
        mirrors(p, q, pass, x, y, n),
        0 <= n,
        -n <= to <= n + 1,
    ensures
        wide_sum(q, pass, x, y, n, n2, -1 - i, to) + wide_sum(p, pass, x, y, n, n2, i, -to + 1) == wide_sum(
            p,
            pass,
            x,
            y,
            n,
            n2,
            i,
            n + 1,
        ),
    decreases to + n,
{
    if to > -n {
        lemma_wide_sums_meet(p, q, pass, x, y, n, n2, i, to - 1);
        let j = to - 1;
        let (k, m) = (clamp(i - j, -(n + 1), n), clamp(-1 - i + j, -(n + 1), n));
        assert(m == -1 - k);
        assert(tap(q, pass, x, y, m) == tap(p, pass, x, y, -1 - m));
        assert(abs(j) == abs(-j));
        assert(-(to - 1) + 1 == -j + 1);
    }
}

/// The two passes do the same over the diagonal: a step across a boundary that runs down is,
/// on the transposed plane, a step across one that runs across.
pub proof fn lemma_passes_transpose(p: Samples, q: Samples, x: int, y: int, k: int, thresh: int, limit: int, blimit: int, len: int)
    requires
        transposes(p, q),
        p.width > 0,
        p.height > 0,
    ensures
        tap(p, 0, x, y, k) == tap(q, 1, y, x, k),
        high_variance(p, 0, x, y, thresh) == high_variance(q, 1, y, x, thresh),
        is_edge(p, 0, x, y, limit, blimit, len) == is_edge(q, 1, y, x, limit, blimit, len),
{
    assert forall|m: int| #[trigger] tap(p, 0, x, y, m) == tap(q, 1, y, x, m) by {
        let (u, v) = (clamp(x + m, 0, p.width - 1), clamp(y, 0, p.height - 1));
        assert(p.sample(u, v) == q.sample(v, u));
    }
    assert(tap(p, 0, x, y, -4) == tap(q, 1, y, x, -4) && tap(p, 0, x, y, -3) == tap(q, 1, y, x, -3) && tap(p, 0, x, y, -2)
        == tap(q, 1, y, x, -2) && tap(p, 0, x, y, -1) == tap(q, 1, y, x, -1) && tap(p, 0, x, y, 0) == tap(q, 1, y, x, 0) && tap(
        p,
        0,
        x,
        y,
        1,
    ) == tap(q, 1, y, x, 1) && tap(p, 0, x, y, 2) == tap(q, 1, y, x, 2) && tap(p, 0, x, y, 3) == tap(q, 1, y, x, 3));
}

/// A boundary is filtered where it is one of its transform, inside the frame and not its
/// first, and no wider than the shorter of the two transforms across it.
pub proof fn lemma_boundaries_of_transforms(d: Filtering, plane: int, pass: int, row: int, col: int)
    requires
        0 <= row,
        0 <= col,
    ensures
        ({
            let here = d.size_at(plane, row, col);
            let w = d.width_across(plane, pass, row, col);
            &&& pass == 0 ==> w <= here.w() && w <= d.size_at(plane, row, col - 1).w()
            &&& pass == 1 ==> w <= here.h() && w <= d.size_at(plane, row - 1, col).h()
            &&& plane == 0 ==> w <= 16
            &&& plane > 0 ==> w <= 8
            &&& pass == 0 && (col == 0 || (4 * col) % here.w() != 0) ==> !d.filters(plane, pass, row, col)
            &&& pass == 1 && (row == 0 || (4 * row) % here.h() != 0) ==> !d.filters(plane, pass, row, col)
            &&& 4 * col >= d.frame_width || 4 * row >= d.frame_height ==> !d.filters(plane, pass, row, col)
        }),
{
}

} // verus!
