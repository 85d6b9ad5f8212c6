//! What holds of the prediction of a transform block from its plane: which samples its
//! edges take, and what luma and a palette make of it.
use super::direction::MODE_TO_ANGLE;
use super::edges::{angle_of, luma_at, luma_sum, sample_predicted, with_luma, Outlook, TxAt};
use super::plane::Samples;
use super::shapes::other_mode;
use super::tiling::sides_exchanged;
use crate::math::{lemma_p2_add, lemma_p2_pos, lemma_p2_values, min, p2, round2, round2_signed};
use vstd::prelude::*;

verus! {

/// The angles of two modes over the diagonal add up to three quarters of a turn: what is as
/// far from the vertical axis on one side is as far from the horizontal on the other.
pub proof fn lemma_angles_over_the_diagonal(mode: int)
    requires
        1 <= mode <= 8,
        mode != 3,
    ensures
        MODE_TO_ANGLE@[mode] + MODE_TO_ANGLE@[other_mode(mode)] == 270,
        MODE_TO_ANGLE@[1] == 90,
        MODE_TO_ANGLE@[3] == 45,
        mode == 4 ==> MODE_TO_ANGLE@[mode] == 135,
{
}

/// A step of the angle's delta is three degrees; no block is predicted along an angle below
/// 36 degrees or above 212.
pub proof fn lemma_angle_steps(t: TxAt)
    requires
        1 <= t.mode <= 8,
        -3 <= t.angle_delta <= 3,
    ensures
        angle_of(t) == MODE_TO_ANGLE@[t.mode] + 3 * t.angle_delta,
        36 <= angle_of(t) <= 212,
{
}

/// The row above a block that has one is the samples above it: those over the block, then as
/// many again where they are decoded, as far as the plane goes, and the last of them after
/// that.
pub proof fn lemma_row_above(o: Outlook, t: TxAt, i: int)
    requires
        t.have_above,
        0 <= i,
        0 <= t.x < o.p.width,
    ensures
        i < t.size.w() && t.x + i < o.p.width ==> o.above(t, i) == o.p.sample(t.x + i, t.y - 1),
        i >= t.size.w() && !o.above_right(t) ==> o.above(t, i) == o.above(t, t.size.w() - 1),
        i < 2 * t.size.w() && t.x + i < o.p.width && o.above_right(t) ==> o.above(t, i) == o.p.sample(t.x + i, t.y - 1),
        i >= 2 * t.size.w() ==> o.above(t, i) == o.above(t, 2 * t.size.w() - 1),
        t.x + i >= o.p.width && i < t.size.w() ==> o.above(t, i) == o.p.sample(o.p.width - 1, t.y - 1),
{
    lemma_p2_values();
    assert(t.size.w() >= 4);
}

/// The column to the left is taken in the same way.
pub proof fn lemma_column_left(o: Outlook, t: TxAt, i: int)
    requires
        t.have_left,
        0 <= i,
        0 <= t.y < o.p.height,
    ensures
        i < t.size.h() && t.y + i < o.p.height ==> o.left(t, i) == o.p.sample(t.x - 1, t.y + i),
        i >= t.size.h() && !o.below_left(t) ==> o.left(t, i) == o.left(t, t.size.h() - 1),
        i < 2 * t.size.h() && t.y + i < o.p.height && o.below_left(t) ==> o.left(t, i) == o.p.sample(t.x - 1, t.y + i),
        i >= 2 * t.size.h() ==> o.left(t, i) == o.left(t, 2 * t.size.h() - 1),
        t.y + i >= o.p.height && i < t.size.h() ==> o.left(t, i) == o.p.sample(t.x - 1, o.p.height - 1),
{
    lemma_p2_values();
    assert(t.size.h() >= 4);
}

/// A block without neighbours takes the middle of the range at its corner, one less above
/// and one more to the left. With neighbours on one side only, the other side and the corner
/// are the nearest of them.
pub proof fn lemma_missing_neighbours(o: Outlook, t: TxAt, i: int)
    requires
        1 <= o.depth,
    ensures
        !t.have_above && !t.have_left ==> 2 * o.corner(t) == p2(o.depth) && o.above(t, i) == o.corner(t) - 1 && o.left(t, i)
            == o.corner(t) + 1,
        t.have_above && !t.have_left ==> o.left(t, i) == o.p.sample(t.x, t.y - 1) && o.corner(t) == o.left(t, i),
        !t.have_above && t.have_left ==> o.above(t, i) == o.p.sample(t.x - 1, t.y) && o.corner(t) == o.above(t, i),
        t.have_above && t.have_left ==> o.corner(t) == o.p.sample(t.x - 1, t.y - 1),
{
}

/// Whether two planes are each other's transpose.
pub open spec fn transposes(p: Samples, q: Samples) -> bool {
    &&& p.width == q.height
    &&& p.height == q.width
    &&& forall|x: int, y: int|
        0 <= x < p.width && 0 <= y < p.height ==> #[trigger] p.sample(x, y) == q.sample(y, x)
}

/// The block over the diagonal.
pub open spec fn over_the_diagonal(t: TxAt) -> TxAt {
    TxAt {
        x: t.y,
        y: t.x,
        size: sides_exchanged(t.size),
        have_left: t.have_above,
        have_above: t.have_left,
        ..t
    }
}

/// Over the diagonal the row above is the column to the left.
pub proof fn lemma_edges_over_the_diagonal(o: Outlook, q: Outlook, t: TxAt, i: int)
    requires
        transposes(o.p, q.p),
        t.have_above,
        o.p.width > 0,
        0 <= t.x < o.p.width,
        1 <= t.y < o.p.height,
        0 <= i,
        o.above_right(t) == q.below_left(over_the_diagonal(t)),
    ensures
        o.above(t, i) == q.left(over_the_diagonal(t), i),
{
    lemma_p2_values();
    let u = over_the_diagonal(t);
    assert(u.size.h() == t.size.w() && t.size.w() >= 4);
    let extent = if o.above_right(t) {
        2 * t.size.w()
    } else {
        t.size.w()
    };
    let x = min(t.x + i, min(t.x + extent - 1, o.p.width - 1));
    assert(0 <= x < o.p.width);
    assert(o.p.sample(x, t.y - 1) == q.p.sample(t.y - 1, x));
}

/// A sample of a palette block has the colour that the map says for its place.
pub proof fn lemma_palette_samples(o: Outlook, luma: Samples, tools: bool, t: TxAt, k: int)
    requires
        t.palette is Some,
        0 <= k,
        ({
            let v = t.palette->0;
            let (row, column) = (t.y + k / t.size.w() - v.base_y, t.x + k % t.size.w() - v.base_x);
            &&& v.colours.len() == 8
            &&& 0 <= row * v.block_w + column < v.map.len()
            &&& v.map[row * v.block_w + column] < 8
        }),
    ensures
        ({
            let v = t.palette->0;
            let (row, column) = (t.y + k / t.size.w() - v.base_y, t.x + k % t.size.w() - v.base_x);
            sample_predicted(o, luma, tools, t, k) == v.colours[v.map[row * v.block_w + column] as int]
        }),
{
}

/// A prediction from luma adds to a sample a sixty-fourth of the factor times how far its
/// luma is from the mean of the block's, rounded, as far as the range allows; it adds
/// nothing at a factor of zero or at the mean, and as much less at the opposite factor.
pub proof fn lemma_luma_adds(luma: Samples, t: TxAt, alpha: int, value: int, depth: int, k: int)
    requires
        0 <= value < p2(depth),
        1 <= depth,
    ensures
        ({
            let n = t.size.w() * t.size.h();
            let mean = round2(luma_sum(luma, t, n), t.size.wlog() + t.size.hlog());
            let far = alpha * (luma_at(luma, t, k) - mean);
            let v = with_luma(luma, t, alpha, value, depth, k);
            &&& 0 <= v < p2(depth)
            &&& alpha == 0 || luma_at(luma, t, k) == mean ==> v == value
            &&& 0 < v < p2(depth) - 1 ==> -32 <= 64 * (v - value) - far <= 32
            &&& far >= 0 ==> v >= value
            &&& far <= 0 ==> v <= value
            &&& -n <= 2 * n * mean - 2 * luma_sum(luma, t, n) <= n
        }),
{
    lemma_p2_values();
    lemma_p2_pos(depth);
    let n = t.size.w() * t.size.h();
    lemma_p2_add(t.size.wlog(), t.size.hlog());
    let log = t.size.wlog() + t.size.hlog();
    assert(n == p2(log));
    assert(log >= 4);
    let sum = luma_sum(luma, t, n);
    let mean = round2(sum, log);
    lemma_p2_pos(log - 1);
    let half = p2(log - 1);
    assert(n == 2 * half);
    assert(-n <= 2 * n * mean - 2 * sum <= n) by (nonlinear_arith)
        requires
            mean == (sum + half) / n,
            n == 2 * half,
            half >= 1,
    ;
    let away = luma_at(luma, t, k) - mean;
    assert(alpha == 0 || away == 0 ==> alpha * away == 0) by (nonlinear_arith);
    let far = alpha * away;
    let added = round2_signed(far, 6);
    assert(-32 <= 64 * added - far <= 32);
    assert(far >= 0 ==> added >= 0);
    assert(far <= 0 ==> added <= 0);
}

/// Luma counts eight times its sample at every place of the block that the plane has, and
/// nothing outside.
pub proof fn lemma_luma_counts(luma: Samples, t: TxAt, i: int, j: int)
    requires
        0 <= i,
        0 <= j < t.size.w(),
    ensures
        luma_at(luma, t, i * t.size.w() + j) == (if luma.has(t.x + j, t.y + i) {
            8 * luma.sample(t.x + j, t.y + i)
        } else {
            0
        }),
{
    let w = t.size.w();
    let k = i * w + j;
    assert(k / w == i && k % w == j) by (nonlinear_arith)
        requires
            k == i * w + j,
            0 <= j < w,
            0 <= i,
    ;
}

} // verus!
