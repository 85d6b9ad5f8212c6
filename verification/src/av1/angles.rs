//! What holds of directional prediction, whatever the edges are: which samples a
//! direction reads, where between them it lands, and how the two sides of the
//! diagonal mirror each other.
use super::direction::{between, doubled, inputs, interpolated, kernel_sum, lemma_recursive, look, mixed, part, placed, recursive, sampled, scaled, slope, smoothed, smoothing, tap, whole, widened, Direction, DR_INTRA_DERIVATIVE, INTRA_EDGE_KERNEL, INTRA_FILTER_TAPS};
use crate::math::{clamp, lemma_p2_values};
use vstd::prelude::*;

verus! {

/// An edge gives back the sample that was last placed at an index.
pub proof fn lemma_placed_is_read(e: Seq<i32>, i: int, value: i32, k: int)
    requires
        e.len() == 320,
        -16 <= i < 304,
        -16 <= k < 304,
    ensures
        look(placed(e, i, value), i) == value,
        k != i ==> look(placed(e, i, value), k) == look(e, k),
        look(e, k) == e[k + 16],
{
}

/// A direction past the horizontal axis depends on the column to the left alone, one
/// before the vertical axis on the row above alone.
pub proof fn lemma_one_edge_decides(d: Direction, above: Seq<i32>, left: Seq<i32>, other: Seq<i32>, i: int, j: int)
    ensures
        d.angle > 180 ==> d.predicted(above, left, i, j) == d.predicted(other, left, i, j),
        d.angle < 90 ==> d.predicted(above, left, i, j) == d.predicted(above, other, i, j),
{
}

/// Without edge tools the edges are projected as they are.
pub proof fn lemma_plain_edges(d: Direction, above: Seq<i32>, left: Seq<i32>)
    requires
        !d.tools,
    ensures
        d.ready_above(above, left) == above,
        d.ready_left(above, left) == left,
{
}

/// Whether `v` is the sample that lies at the position `at` of an edge whose samples are
/// `step` apart: it is between the two samples on either side of the position, and as
/// near to the line that joins them as a whole number and a step of the position allow.
pub open spec fn lies(e: Seq<i32>, at: int, step: int, v: int) -> bool {
    let (k, r) = (at / step, at % step);
    let (a, b) = (e[16 + k] as int, e[17 + k] as int);
    let apart = if a <= b {
        b - a
    } else {
        a - b
    };
    &&& a <= b ==> a <= v <= b
    &&& b <= a ==> b <= v <= a
    &&& -step - 2 * apart <= 2 * step * v - 2 * (step * a + (b - a) * r) <= step + 2 * apart
    &&& r == 0 ==> v == a
}

/// Interpolation at a position gives the sample that lies there.
proof fn lemma_lies(e: Seq<i32>, at: int, step: int, base: int, shift: int)
    requires
        e.len() == 320,
        step == 64 || step == 32,
        base == at / step,
        shift == (if step == 64 {
            at % 64 / 2
        } else {
            at % 32
        }),
        -16 <= base < 303,
    ensures
        lies(e, at, step, interpolated(e, base, shift)),
{
    let (a, b) = (e[16 + base] as int, e[17 + base] as int);
    let (r, v) = (at % step, interpolated(e, base, shift));
    lemma_p2_values();
    assert(look(e, base) == a && look(e, base + 1) == b);
    let s = a * (32 - shift) + b * shift;
    assert(s == 32 * a + (b - a) * shift) by (nonlinear_arith)
        requires
            s == a * (32 - shift) + b * shift,
    ;
    assert(v == (s + 16) / 32);
    let gap = b - a;
    assert(0 <= shift < 32);
    assert(gap >= 0 ==> 0 <= gap * shift <= 31 * gap) by (nonlinear_arith)
        requires
            0 <= shift < 32,
    ;
    assert(gap <= 0 ==> 31 * gap <= gap * shift <= 0) by (nonlinear_arith)
        requires
            0 <= shift < 32,
    ;
    if step == 64 {
        assert(r == 2 * shift || r == 2 * shift + 1);
        assert(gap * r == 2 * (gap * shift) || gap * r == 2 * (gap * shift) + gap) by (nonlinear_arith)
            requires
                r == 2 * shift || r == 2 * shift + 1,
        ;
    } else {
        assert(gap * r == gap * shift);
    }
    assert(r == 0 ==> gap * shift == 0) by (nonlinear_arith)
        requires
            r == 0 ==> shift == 0,
    ;
}

/// The distance of the samples of an edge, in 64ths of a sample of the block.
pub open spec fn pitch(double: bool) -> int {
    if double {
        32
    } else {
        64
    }
}

/// A position that is whole samples and a part further along lands on the same part.
proof fn lemma_along(at: int, n: int, double: bool)
    ensures
        whole(at, double) + scaled(n, double) == (64 * n + at) / pitch(double),
        part(at, double) == (if double {
            (64 * n + at) % 32
        } else {
            (64 * n + at) % 64 / 2
        }),
{
    if double {
        assert(at / 32 + 2 * n == (64 * n + at) / 32);
        assert(at % 32 == (64 * n + at) % 32);
    } else {
        let (q, r) = (at / 64, at % 64);
        assert(at == 64 * q + r && 0 <= r < 64);
        assert((64 * n + at) / 64 == n + q && (64 * n + at) % 64 == r);
        assert(at / 2 == 32 * q + r / 2);
        assert((32 * q + r / 2) % 32 == r / 2);
    }
}

/// Every sample of an edge is at most `top`.
pub open spec fn topped(e: Seq<i32>, top: int) -> bool {
    e.len() == 320 && forall|k: int| 0 <= k < 320 ==> 0 <= #[trigger] e[k] <= top
}

/// Before the vertical axis a sample lies on the row above, as many slopes to the right
/// of its column as it is rows below the edge. Past the last sample it is the last.
pub proof fn lemma_lies_above(d: Direction, above: Seq<i32>, left: Seq<i32>, i: int, j: int)
    requires
        d.angle < 90,
        0 <= i < d.h <= 64,
        0 <= j < d.w <= 64,
        topped(d.ready_above(above, left), d.top),
    ensures
        ({
            let (e, v) = (d.ready_above(above, left), d.predicted(above, left, i, j));
            let (at, step) = (64 * j + (i + 1) * slope(d.angle), pitch(d.doubles_above()));
            let last = 64 * (d.w + d.h - 1);
            if at / step < last / step {
                lies(e, at, step, v)
            } else {
                v == e[16 + last / step]
            }
        }),
{
    let (e, double) = (d.ready_above(above, left), d.doubles_above());
    let (down, step) = ((i + 1) * slope(d.angle), pitch(double));
    lemma_slope(d.angle);
    assert(0 <= down) by (nonlinear_arith)
        requires
            down == (i + 1) * slope(d.angle),
            0 <= i,
            0 <= slope(d.angle),
    ;
    let base = whole(down, double) + scaled(j, double);
    lemma_along(down, j, double);
    let last = scaled(d.w + d.h - 1, double);
    assert(last == 64 * (d.w + d.h - 1) / step);
    if base < last {
        lemma_lies(e, 64 * j + down, step, base, part(down, double));
        assert(0 <= e[16 + base] <= d.top && 0 <= e[17 + base] <= d.top);
    } else {
        assert(0 <= e[16 + last] <= d.top);
    }
}

/// Past the horizontal axis a sample lies on the column to the left, as many slopes below
/// its row as it is columns from the edge.
pub proof fn lemma_lies_left(d: Direction, above: Seq<i32>, left: Seq<i32>, i: int, j: int)
    requires
        d.angle > 180,
        0 <= i < d.h,
        0 <= j < d.w,
        (64 * i + (j + 1) * slope(270 - d.angle)) / pitch(d.doubles_left()) < 303,
        topped(d.ready_left(above, left), d.top),
    ensures
        lies(
            d.ready_left(above, left),
            64 * i + (j + 1) * slope(270 - d.angle),
            pitch(d.doubles_left()),
            d.predicted(above, left, i, j),
        ),
{
    let (e, double) = (d.ready_left(above, left), d.doubles_left());
    let (along, step) = ((j + 1) * slope(270 - d.angle), pitch(double));
    lemma_slope(270 - d.angle);
    assert(0 <= along) by (nonlinear_arith)
        requires
            along == (j + 1) * slope(270 - d.angle),
            0 <= j,
            0 <= slope(270 - d.angle),
    ;
    let base = whole(along, double) + scaled(i, double);
    lemma_along(along, i, double);
    lemma_lies(e, 64 * i + along, step, base, part(along, double));
    assert(0 <= e[16 + base] <= d.top && 0 <= e[17 + base] <= d.top);
}

/// Between the axes a sample lies on the row above where its line meets that row at or
/// after the corner, and on the column to the left elsewhere, where its line then meets
/// that column at or after the corner.
pub proof fn lemma_lies_between(d: Direction, above: Seq<i32>, left: Seq<i32>, i: int, j: int)
    requires
        90 < d.angle < 180,
        slope(d.angle - 90) > 0,
        0 <= i < d.h <= 64,
        0 <= j < d.w <= 64,
        topped(d.ready_above(above, left), d.top),
        topped(d.ready_left(above, left), d.top),
    ensures
        ({
            let v = d.predicted(above, left, i, j);
            let across = 64 * j - (i + 1) * slope(180 - d.angle);
            let down = 64 * i - (j + 1) * slope(d.angle - 90);
            if across >= -64 {
                lies(d.ready_above(above, left), across, pitch(d.doubles_above()), v)
            } else {
                down >= -64 && lies(d.ready_left(above, left), down, pitch(d.doubles_left()), v)
            }
        }),
{
    let (ua, ul) = (d.doubles_above(), d.doubles_left());
    let (ea, el) = (d.ready_above(above, left), d.ready_left(above, left));
    let across = 64 * j - (i + 1) * slope(180 - d.angle);
    let down = 64 * i - (j + 1) * slope(d.angle - 90);
    lemma_slopes_meet(d.angle - 90, i, j);
    assert(across >= -64 <==> whole(across, ua) >= -scaled(1, ua));
    if across >= -64 {
        assert(across <= 64 * j);
        lemma_along(across, 0, ua);
        lemma_lies(ea, across, pitch(ua), whole(across, ua), part(across, ua));
        let base = whole(across, ua);
        assert(0 <= ea[16 + base] <= d.top && 0 <= ea[17 + base] <= d.top);
    } else {
        assert(down <= 64 * i);
        lemma_along(down, 0, ul);
        lemma_lies(el, down, pitch(ul), whole(down, ul), part(down, ul));
        let base = whole(down, ul);
        assert(0 <= el[16 + base] <= d.top && 0 <= el[17 + base] <= d.top);
    }
}

/// Slopes are not negative.
proof fn lemma_slope(angle: int)
    ensures
        0 <= slope(angle) <= 1023,
{
    if 0 <= angle < 90 {
        assert(0 <= DR_INTRA_DERIVATIVE@[angle] <= 1023);
    }
}

/// A line that leaves the row above before its corner meets the column to the left after
/// it.
proof fn lemma_slopes_meet(a: int, i: int, j: int)
    requires
        0 < a < 90,
        slope(a) > 0,
        0 <= i,
        0 <= j,
    ensures
        0 <= (i + 1) * slope(90 - a),
        0 <= (j + 1) * slope(a),
        64 * j - (i + 1) * slope(90 - a) < -64 ==> 64 * i - (j + 1) * slope(a) >= -64,
{
    lemma_slopes(a);
    let (s, t) = (slope(a), slope(90 - a));
    assert(0 <= (i + 1) * t && 0 <= (j + 1) * s) by (nonlinear_arith)
        requires
            0 <= i,
            0 <= j,
            0 < s,
            0 < t,
    ;
    if 64 * j - (i + 1) * t < -64 {
        assert(64 * ((j + 1) * s) <= 4096 * (i + 1)) by (nonlinear_arith)
            requires
                64 * (j + 1) < (i + 1) * t,
                s * t <= 4096,
                0 < s,
                0 <= i,
        ;
    }
}

/// A slope is that of its angle's tangent: it falls as the angle grows, is one sample per
/// sample halfway between the axes, and is nearly undone by the slope of the angle from
/// the other axis, never more.
pub proof fn lemma_slopes(a: int)
    requires
        0 < a < 90,
        slope(a) > 0,
    ensures
        slope(90 - a) > 0,
        3000 < slope(a) * slope(90 - a) <= 4096,
        9 <= a <= 81 ==> 4047 <= slope(a) * slope(90 - a),
        slope(45) == 64,
        a < 45 ==> slope(a) > 64,
        a > 45 ==> slope(a) < 64,
        a >= 8 ==> slope(a - 3) > slope(a) || slope(a - 4) > slope(a) || slope(a - 5) > slope(a),
{
    let (s, t) = (slope(a), slope(90 - a));
    let inner = (s == 372 && t == 11)
        || (s == 273 && t == 15)
        || (s == 215 && t == 19)
        || (s == 178 && t == 23)
        || (s == 151 && t == 27)
        || (s == 132 && t == 31)
        || (s == 116 && t == 35)
        || (s == 102 && t == 40)
        || (s == 90 && t == 45)
        || (s == 80 && t == 51)
        || (s == 71 && t == 57)
        || (s == 64 && t == 64)
        || (s == 57 && t == 71)
        || (s == 51 && t == 80)
        || (s == 45 && t == 90)
        || (s == 40 && t == 102)
        || (s == 35 && t == 116)
        || (s == 31 && t == 132)
        || (s == 27 && t == 151)
        || (s == 23 && t == 178)
        || (s == 19 && t == 215)
        || (s == 15 && t == 273)
        || (s == 11 && t == 372);
    let outer = (s == 1023 && t == 3)
        || (s == 547 && t == 7)
        || (s == 7 && t == 547)
        || (s == 3 && t == 1023);
    assert(if 9 <= a <= 81 {
        inner
    } else {
        outer
    });
    assert(inner ==> 4047 <= s * t <= 4096) by (nonlinear_arith)
        requires
            inner == ((s == 372 && t == 11)
                || (s == 273 && t == 15)
                || (s == 215 && t == 19)
                || (s == 178 && t == 23)
                || (s == 151 && t == 27)
                || (s == 132 && t == 31)
                || (s == 116 && t == 35)
                || (s == 102 && t == 40)
                || (s == 90 && t == 45)
                || (s == 80 && t == 51)
                || (s == 71 && t == 57)
                || (s == 64 && t == 64)
                || (s == 57 && t == 71)
                || (s == 51 && t == 80)
                || (s == 45 && t == 90)
                || (s == 40 && t == 102)
                || (s == 35 && t == 116)
                || (s == 31 && t == 132)
                || (s == 27 && t == 151)
                || (s == 23 && t == 178)
                || (s == 19 && t == 215)
                || (s == 15 && t == 273)
                || (s == 11 && t == 372)),
    ;
    assert(outer ==> 3000 < s * t <= 4096) by (nonlinear_arith)
        requires
            outer == ((s == 1023 && t == 3)
                || (s == 547 && t == 7)
                || (s == 7 && t == 547)
                || (s == 3 && t == 1023)),
    ;
}

/// Halfway between the axes samples are copied along diagonals: without edge tools a
/// sample equals the one its diagonal meets on an edge.
pub proof fn lemma_diagonals_copy(d: Direction, above: Seq<i32>, left: Seq<i32>, i: int, j: int)
    requires
        !d.tools,
        0 <= i < d.h <= 64,
        0 <= j < d.w <= 64,
        topped(above, d.top),
        topped(left, d.top),
    ensures
        ({
            let v = d.predicted(above, left, i, j);
            &&& d.angle == 45 && i + j + 1 < d.w + d.h ==> v == above[16 + i + j + 1]
            &&& d.angle == 135 && j >= i ==> v == above[16 + j - i - 1]
            &&& d.angle == 135 && j < i ==> v == left[16 + i - j - 1]
            &&& d.angle == 225 ==> v == left[16 + i + j + 1]
        }),
{
    lemma_slopes(45);
    lemma_plain_edges(d, above, left);
    assert((i + 1) * slope(45) == 64 * (i + 1) && (j + 1) * slope(45) == 64 * (j + 1)) by (nonlinear_arith)
        requires
            slope(45) == 64,
    ;
    let v = d.predicted(above, left, i, j);
    if d.angle == 45 {
        lemma_lies_above(d, above, left, i, j);
        let at = 64 * j + (i + 1) * slope(45);
        assert(at == 64 * (i + j + 1));
        assert(at / 64 == i + j + 1 && at % 64 == 0);
        assert(64 * (d.w + d.h - 1) / 64 == d.w + d.h - 1);
    } else if d.angle == 135 {
        lemma_lies_between(d, above, left, i, j);
        let across = 64 * j - (i + 1) * slope(45);
        let down = 64 * i - (j + 1) * slope(45);
        assert(across == 64 * (j - i - 1) && down == 64 * (i - j - 1));
        assert(across / 64 == j - i - 1 && across % 64 == 0 && down / 64 == i - j - 1 && down % 64 == 0);
    } else if d.angle == 225 {
        lemma_lies_left(d, above, left, i, j);
        let at = 64 * i + (j + 1) * slope(45);
        assert(at == 64 * (i + j + 1));
        assert(at / 64 == i + j + 1 && at % 64 == 0);
    }
}

/// The direction on the other side of the diagonal.
pub open spec fn turned(d: Direction) -> Direction {
    Direction {
        angle: 270 - d.angle,
        w: d.h,
        h: d.w,
        have_left: d.have_above,
        have_above: d.have_left,
        smooth: d.smooth,
        tools: d.tools,
        avail_above: d.avail_left,
        avail_left: d.avail_above,
        top: d.top,
    }
}

/// The edges are prepared alike: over the diagonal the row above becomes the column to the
/// left.
pub proof fn lemma_edges_turn(d: Direction, above: Seq<i32>, left: Seq<i32>)
    requires
        above.len() == 320,
        left.len() == 320,
        above[15] == left[15],
    ensures
        turned(d).ready_left(left, above) == d.ready_above(above, left),
        turned(d).ready_above(left, above) == d.ready_left(above, left),
        turned(turned(d)) == d,
{
    assert(turned(d).corner(left, above) == d.corner(above, left));
}

/// Prediction does not tell rows from columns: over the diagonal, with the edges and the
/// sides exchanged, the block is transposed. That holds of every sample before the last
/// of the row above, and between the axes of every sample that lies on the column to the
/// left.
pub proof fn lemma_directions_turn(d: Direction, above: Seq<i32>, left: Seq<i32>, i: int, j: int)
    requires
        above.len() == 320,
        left.len() == 320,
        above[15] == left[15],
        0 <= i < d.h,
        0 <= j < d.w,
    ensures
        d.angle < 90 && (64 * j + (i + 1) * slope(d.angle)) / pitch(d.doubles_above()) < scaled(
            d.w + d.h - 1,
            d.doubles_above(),
        ) ==> d.predicted(above, left, i, j) == turned(d).predicted(left, above, j, i),
        90 < d.angle < 180 && slope(d.angle - 90) > 0 && 64 * j - (i + 1) * slope(180 - d.angle) < -64 ==> d.predicted(
            above,
            left,
            i,
            j,
        ) == turned(d).predicted(left, above, j, i),
        d.angle == 90 || d.angle == 180 ==> d.predicted(above, left, i, j) == turned(d).predicted(left, above, j, i),
{
    lemma_edges_turn(d, above, left);
    let t = turned(d);
    assert(t.doubles_left() == d.doubles_above() && t.doubles_above() == d.doubles_left());
    if d.angle < 90 {
        lemma_along((i + 1) * slope(d.angle), j, d.doubles_above());
    } else if 90 < d.angle < 180 && slope(d.angle - 90) > 0 {
        lemma_slopes_meet(d.angle - 90, i, j);
        let ul = d.doubles_left();
        let across = 64 * j - (i + 1) * slope(180 - d.angle);
        let down = 64 * i - (j + 1) * slope(d.angle - 90);
        assert(across >= -64 <==> whole(across, d.doubles_above()) >= -scaled(1, d.doubles_above()));
        assert(down >= -64 <==> whole(down, ul) >= -scaled(1, ul));
    }
}

/// Smoothing is stronger for larger blocks, for angles further off the axis and beside
/// smooth neighbours, never weaker.
pub proof fn lemma_smoothing_grows(blk: int, more: int, smooth: bool, d: int, off: int)
    requires
        blk <= more,
        d <= off,
    ensures
        0 <= smoothing(blk, smooth, d) <= 3,
        smoothing(blk, smooth, d) <= smoothing(more, smooth, d),
        smoothing(blk, smooth, d) <= smoothing(blk, smooth, off),
        smoothing(blk, false, d) <= smoothing(blk, true, d),
        more > 32 ==> smoothing(more, smooth, d) == 3,
        blk <= 8 && off < 40 ==> smoothing(blk, smooth, off) == 0,
        blk <= 8 && d >= 56 ==> smoothing(blk, smooth, d) >= 1,
{
}

/// Smoothing leaves the corner, what is before it and what is past the smoothed samples.
/// A smoothed sample is the rounded mean of its neighbours, which count a quarter, a half
/// and a quarter at strength one, five, six and five sixteenths at strength two; at
/// strength three the sample and its neighbours count a quarter each, and the next ones an
/// eighth. A neighbour past an end is the end's.
pub proof fn lemma_smoothed_means(e: Seq<i32>, sz: int, strength: int, k: int)
    requires
        sampled(e),
        1 <= strength <= 3,
        1 <= sz <= 305,
        0 <= k < 320,
    ensures
        ({
            let s = smoothed(e, sz, strength);
            let v = s[k] as int;
            let at = |m: int| e[clamp(k + m, 15, 14 + sz)] as int;
            &&& s.len() == 320
            &&& k <= 15 || k >= 15 + sz ==> v == e[k]
            &&& 16 <= k < 15 + sz ==> {
                &&& strength == 1 ==> -2 <= 4 * v - (at(-1) + 2 * at(0) + at(1)) <= 2
                &&& strength == 2 ==> -8 <= 16 * v - (5 * at(-1) + 6 * at(0) + 5 * at(1)) <= 8
                &&& strength == 3 ==> -4 <= 8 * v - (at(-2) + 2 * at(-1) + 2 * at(0) + 2 * at(1) + at(2)) <= 4
            }
        }),
{
    if 16 <= k < 15 + sz {
        lemma_kernel(e, sz, strength, k);
        let at = |m: int| e[clamp(k + m, 15, 14 + sz)] as int;
        assert(at(-2) == e[clamp(k - 2, 15, 14 + sz)] && at(-1) == e[clamp(k - 1, 15, 14 + sz)] && at(0) == e[k] && at(1)
            == e[clamp(k + 1, 15, 14 + sz)] && at(2) == e[clamp(k + 2, 15, 14 + sz)]);
        let sum = kernel_sum(e, sz, strength, k - 15, 5);
        assert(smoothed(e, sz, strength)[k] == ((sum + 8) / 16) as i32);
    }
}

/// The weighted sum of five samples, by strength.
proof fn lemma_kernel(e: Seq<i32>, sz: int, strength: int, k: int)
    requires
        sampled(e),
        1 <= strength <= 3,
        1 <= sz <= 305,
        16 <= k < 15 + sz,
    ensures
        ({
            let sum = kernel_sum(e, sz, strength, k - 15, 5);
            let (x0, x1) = (e[clamp(k - 2, 15, 14 + sz)] as int, e[clamp(k - 1, 15, 14 + sz)] as int);
            let (x3, x4) = (e[clamp(k + 1, 15, 14 + sz)] as int, e[clamp(k + 2, 15, 14 + sz)] as int);
            &&& 0 <= sum <= 16 * 0xFFFF
            &&& strength == 1 ==> sum == 4 * x1 + 8 * e[k] + 4 * x3
            &&& strength == 2 ==> sum == 5 * x1 + 6 * e[k] + 5 * x3
            &&& strength == 3 ==> sum == 2 * x0 + 4 * x1 + 4 * e[k] + 4 * x3 + 2 * x4
        }),
{
    let i = k - 15;
    let sum = kernel_sum(e, sz, strength, i, 5);
    let t = INTRA_EDGE_KERNEL@[strength - 1]@;
    let (x0, x1) = (e[clamp(k - 2, 15, 14 + sz)] as int, e[clamp(k - 1, 15, 14 + sz)] as int);
    let (x2, x3, x4) = (e[k] as int, e[clamp(k + 1, 15, 14 + sz)] as int, e[clamp(k + 2, 15, 14 + sz)] as int);
    assert(0 <= x0 <= 0xFFFF && 0 <= x1 <= 0xFFFF && 0 <= x2 <= 0xFFFF && 0 <= x3 <= 0xFFFF && 0 <= x4 <= 0xFFFF);
    assert(sum == t[0] * x0 + t[1] * x1 + t[2] * x2 + t[3] * x3 + t[4] * x4) by {
        reveal_with_fuel(kernel_sum, 6);
        assert(look(e, clamp(i - 2, 0, sz - 1) - 1) == x0);
        assert(look(e, clamp(i - 1, 0, sz - 1) - 1) == x1);
        assert(look(e, clamp(i, 0, sz - 1) - 1) == x2);
        assert(look(e, clamp(i + 1, 0, sz - 1) - 1) == x3);
        assert(look(e, clamp(i + 2, 0, sz - 1) - 1) == x4);
    }
    let (t0, t1, t2, t3, t4) = (t[0] as int, t[1] as int, t[2] as int, t[3] as int, t[4] as int);
    lemma_weighted(t0, t1, t2, t3, t4, x0, x1, x2, x3, x4);
}

/// A weighted sum with the weights of one of the kernels.
proof fn lemma_weighted(t0: int, t1: int, t2: int, t3: int, t4: int, x0: int, x1: int, x2: int, x3: int, x4: int)
    by (nonlinear_arith)
    requires
        (t0 == 0 && t1 == 4 && t2 == 8 && t3 == 4 && t4 == 0) || (t0 == 0 && t1 == 5 && t2 == 6 && t3 == 5 && t4 == 0)
            || (t0 == 2 && t1 == 4 && t2 == 4 && t3 == 4 && t4 == 2),
    ensures
        t2 == 8 ==> t0 * x0 + t1 * x1 + t2 * x2 + t3 * x3 + t4 * x4 == 4 * x1 + 8 * x2 + 4 * x3,
        t2 == 6 ==> t0 * x0 + t1 * x1 + t2 * x2 + t3 * x3 + t4 * x4 == 5 * x1 + 6 * x2 + 5 * x3,
        t2 == 4 ==> t0 * x0 + t1 * x1 + t2 * x2 + t3 * x3 + t4 * x4 == 2 * x0 + 4 * x1 + 4 * x2 + 4 * x3 + 2 * x4,
{
}

/// Doubling keeps every sample, at twice its index, and the corner before them. A sample
/// between two is as near as the range of samples allows to nine sixteenths of each less
/// a sixteenth of each of their outer neighbours. So it halves a straight line.
pub proof fn lemma_doubled_keeps(e: Seq<i32>, n: int, top: int, i: int)
    requires
        sampled(e),
        0 <= top <= 0xFFFF,
        0 <= i < n <= 64,
    ensures
        ({
            let w = doubled(e, n, top);
            let v = w[15 + 2 * i] as int;
            let (b, c) = (e[15 + i] as int, e[16 + i] as int);
            let a = if i == 0 {
                b
            } else {
                e[14 + i] as int
            };
            let z = if i == n - 1 {
                c
            } else {
                e[17 + i] as int
            };
            let m = 9 * (b + c) - (a + z);
            &&& w[14] == e[15]
            &&& w[16 + 2 * i] == e[16 + i]
            &&& 0 <= v <= top
            &&& -8 <= m <= 16 * top + 7 ==> -8 <= 16 * v - m <= 8
            &&& m < -8 ==> v == 0
            &&& m > 16 * top + 7 ==> v == top
            &&& b - a == c - b && c - b == z - c && b <= top && c <= top ==> -1 <= 2 * v - (b + c) <= 1
        }),
{
    lemma_p2_values();
    let k = 15 + 2 * i;
    assert((k - 15) / 2 == i && k % 2 == 1);
    assert((k + 1 - 16) / 2 == i && (k + 1) % 2 == 0);
    assert(0 <= e[15 + i] <= 0xFFFF && 0 <= e[16 + i] <= 0xFFFF && 0 <= e[14 + i] <= 0xFFFF && 0 <= e[17 + i] <= 0xFFFF);
    assert(widened(e, n, i + 1) == e[15 + i]);
    assert(widened(e, n, i + 2) == e[16 + i]);
    assert(doubled(e, n, top)[k] == between(e, n, i, top));
}

/// The corner is blended with its two neighbours, five, six and five sixteenths each.
pub proof fn lemma_corner_blends(d: Direction, above: Seq<i32>, left: Seq<i32>)
    requires
        sampled(above),
        sampled(left),
    ensures
        -8 <= 16 * d.corner(above, left) - (5 * left[16] + 6 * above[15] + 5 * above[16]) <= 8,
{
    lemma_p2_values();
    assert(0 <= left[16] <= 0xFFFF && 0 <= above[15] <= 0xFFFF && 0 <= above[16] <= 0xFFFF);
}

/// The recursive filter reads no sample past those of its sub-block: not to the right of
/// it on the row above, nor below it on the column to the left.
pub proof fn lemma_recursive_reads_before(
    mode: int,
    above: Seq<i32>,
    left: Seq<i32>,
    further: Seq<i32>,
    below: Seq<i32>,
    top: int,
    r: int,
    c: int,
)
    requires
        0 <= r < 256,
        0 <= c < 256,
        above.len() == 320,
        left.len() == 320,
        further.len() == 320,
        below.len() == 320,
        forall|k: int| 15 <= k < 20 + 4 * (c / 4) ==> #[trigger] above[k] == further[k],
        forall|k: int| 15 <= k < 18 + 2 * (r / 2) ==> #[trigger] left[k] == below[k],
    ensures
        recursive(mode, above, left, top, r, c) == recursive(mode, further, below, top, r, c),
    decreases r / 2, c / 4,
{
    let (y, x) = (2 * (r / 2), 4 * (c / 4));
    let (p, q) = (inputs(mode, above, left, top, y, x), inputs(mode, further, below, top, y, x));
    lemma_recursive(mode, above, left, top, y, x, r % 2, c % 4);
    lemma_recursive(mode, further, below, top, y, x, r % 2, c % 4);
    assert forall|k: int| 0 <= k < 7 implies #[trigger] p[k] == q[k] by {
        if k < 5 {
            if y > 0 && x + k - 1 >= 0 {
                assert((y - 1) / 2 < r / 2 && (x + k - 1) / 4 <= c / 4);
                lemma_recursive_reads_before(mode, above, left, further, below, top, y - 1, x + k - 1);
            }
        } else if x > 0 {
            assert((y + k - 5) / 2 == r / 2 && (x - 1) / 4 < c / 4);
            lemma_recursive_reads_before(mode, above, left, further, below, top, y + k - 5, x - 1);
        }
    }
    assert(p =~= q);
}

/// A mix in which all but one input cancel is that input.
proof fn lemma_mixed_copies(mode: int, at: int, p: Seq<int>, top: int, from: int)
    requires
        0 <= at < 8,
        p.len() == 7,
        mode == 1 ==> from == 1 + at % 4 && p[5] == p[0] && p[6] == p[0],
        mode == 2 ==> from == 5 + at / 4 && p[1] == p[0] && p[2] == p[0] && p[3] == p[0] && p[4] == p[0],
        mode == 1 || mode == 2,
        0 <= p[from] <= top,
    ensures
        mixed(mode, at, p, top) == p[from],
{
    reveal(mixed);
    lemma_p2_values();
    let row = INTRA_FILTER_TAPS@[mode]@[at]@;
    let (t0, t1, t2, t3, t4, t5, t6) = (
        tap(mode, at, 0),
        tap(mode, at, 1),
        tap(mode, at, 2),
        tap(mode, at, 3),
        tap(mode, at, 4),
        tap(mode, at, 5),
        tap(mode, at, 6),
    );
    let sum = t0 * p[0] + t1 * p[1] + t2 * p[2] + t3 * p[3] + t4 * p[4] + t5 * p[5] + t6 * p[6];
    let v = p[from];
    if mode == 1 {
        assert(t0 + t5 + t6 == 0);
        assert(at % 4 == 0 ==> t1 == 16 && t2 == 0 && t3 == 0 && t4 == 0);
        assert(at % 4 == 1 ==> t1 == 0 && t2 == 16 && t3 == 0 && t4 == 0);
        assert(at % 4 == 2 ==> t1 == 0 && t2 == 0 && t3 == 16 && t4 == 0);
        assert(at % 4 == 3 ==> t1 == 0 && t2 == 0 && t3 == 0 && t4 == 16);
        lemma_cancel(t0, t5, t6, p[0]);
        lemma_pick(t1, t2, t3, t4, p[1], p[2], p[3], p[4]);
        assert(sum == 16 * v);
    } else {
        assert(t0 + t1 + t2 + t3 + t4 == 0);
        assert(at / 4 == 0 ==> t5 == 16 && t6 == 0);
        assert(at / 4 == 1 ==> t5 == 0 && t6 == 16);
        lemma_cancel(t0 + t1 + t2, t3, t4, p[0]);
        assert((t0 + t1 + t2) * p[0] == t0 * p[0] + t1 * p[0] + t2 * p[0]) by (nonlinear_arith);
        lemma_pick(t5, t6, 0, 0, p[5], p[6], 0, 0);
        assert(sum == 16 * v);
    }
    assert((16 * v + 8) / 16 == v);
}

/// Weights that add up to zero cancel one value.
proof fn lemma_cancel(a: int, b: int, c: int, x: int)
    by (nonlinear_arith)
    requires
        a + b + c == 0,
    ensures
        a * x + b * x + c * x == 0,
{
}

/// A weight of sixteen beside zeros picks its value.
proof fn lemma_pick(a: int, b: int, c: int, d: int, x: int, y: int, z: int, w: int)
    by (nonlinear_arith)
    ensures
        a == 16 && b == 0 && c == 0 && d == 0 ==> a * x + b * y + c * z + d * w == 16 * x,
        a == 0 && b == 16 && c == 0 && d == 0 ==> a * x + b * y + c * z + d * w == 16 * y,
        a == 0 && b == 0 && c == 16 && d == 0 ==> a * x + b * y + c * z + d * w == 16 * z,
        a == 0 && b == 0 && c == 0 && d == 16 ==> a * x + b * y + c * z + d * w == 16 * w,
{
}

/// The recursive filter's vertical mode copies the row above where the column to the left
/// is flat, its horizontal mode the column to the left where the row above is flat.
pub proof fn lemma_recursive_copies(mode: int, above: Seq<i32>, left: Seq<i32>, top: int, r: int, c: int)
    requires
        0 <= r < 256,
        0 <= c < 256,
        topped(above, top),
        topped(left, top),
        mode == 1 ==> forall|k: int| 16 <= k < 320 ==> #[trigger] left[k] == above[15],
        mode == 2 ==> forall|k: int| 16 <= k < 320 ==> #[trigger] above[k] == above[15],
        mode == 1 || mode == 2,
    ensures
        mode == 1 ==> recursive(mode, above, left, top, r, c) == above[16 + c],
        mode == 2 ==> recursive(mode, above, left, top, r, c) == left[16 + r],
    decreases r / 2, c / 4,
{
    let (y, x) = (2 * (r / 2), 4 * (c / 4));
    let p = inputs(mode, above, left, top, y, x);
    lemma_recursive(mode, above, left, top, y, x, r % 2, c % 4);
    assert forall|k: int| 0 <= k < 7 implies #[trigger] p[k] == (if mode == 1 {
        if 1 <= k < 5 {
            above[15 + x + k]
        } else {
            above[15 + x]
        }
    } else {
        if k >= 5 {
            left[11 + y + k]
        } else if y == 0 {
            above[15]
        } else {
            left[15 + y]
        }
    }) by {
        if k < 5 {
            if y > 0 && x + k - 1 >= 0 {
                assert((y - 1) / 2 < r / 2 && (x + k - 1) / 4 <= c / 4);
                lemma_recursive_copies(mode, above, left, top, y - 1, x + k - 1);
            }
        } else if x > 0 {
            assert((y + k - 5) / 2 == r / 2 && (x - 1) / 4 < c / 4);
            lemma_recursive_copies(mode, above, left, top, y + k - 5, x - 1);
        }
    }
    let at = 4 * (r % 2) + c % 4;
    assert(0 <= above[16 + c] <= top && 0 <= left[16 + r] <= top);
    if mode == 1 {
        lemma_mixed_copies(mode, at, p, top, 1 + at % 4);
    } else {
        lemma_mixed_copies(mode, at, p, top, 5 + at / 4);
    }
}

} // verus!
