//! Sums of waves at odd places: what they add to a DCT of sixteen values.
use super::butterfly::{cos, dct_order, partial_network, partial_stage, reversed, Network};
use super::halves::{lemma_upper_waits, odd_part};
use super::sums::{lemma_rest, lemma_sum, lemma_turn, rounds};
use crate::math::{lemma_p2_values, p2};
use vstd::prelude::*;

verus! {

/// Stage 3 on the odd half of sixteen values, in whole numbers.
#[verifier::opaque]
spec fn stage3(q: Seq<i64>, u1: Seq<i64>) -> bool {
    &&& rounds(u1[8] as int, q[8] * 401 - q[15] * 4076)
    &&& rounds(u1[15] as int, q[8] * 4076 + q[15] * 401)
    &&& rounds(u1[9] as int, q[9] * 3166 - q[14] * 2598)
    &&& rounds(u1[14] as int, q[9] * 2598 + q[14] * 3166)
    &&& rounds(u1[10] as int, q[10] * 1931 - q[13] * 3612)
    &&& rounds(u1[13] as int, q[10] * 3612 + q[13] * 1931)
    &&& rounds(u1[11] as int, q[11] * 3920 - q[12] * 1189)
    &&& rounds(u1[12] as int, q[11] * 1189 + q[12] * 3920)
}

/// Stage 3 does as it should.
proof fn lemma_stage3(t: Seq<i64>, r: int, m: int)
    requires
        t.len() == 64,
        forall|p: int| 8 <= p < 16 ==> -m <= #[trigger] t[p] <= m,
        1 <= r,
        0 <= m <= 0x1000_0000_0000,
    ensures
        ({
            let u = partial_stage(t, Network::Dct, 3, 4, r);
            &&& u.len() == 64
            &&& stage3(t, u)
            &&& forall|p: int| 8 <= p < 16 ==> -3 * m - 1 <= 2 * #[trigger] u[p] <= 3 * m + 1
        }),
{
    let net = Network::Dct;
    assert(-m <= t[8] <= m && -m <= t[9] <= m && -m <= t[10] <= m && -m <= t[11] <= m && -m <= t[12] <= m && -m <= t[13] <= m && -m <= t[14] <= m && -m <= t[15] <= m);
    reveal(stage3);
    reveal(cos);
    reveal_with_fuel(reversed, 5);
    lemma_p2_values();
    lemma_turn(t, net, 3, 0, r, 401, 4076);
    lemma_turn(t, net, 3, 1, r, 3166, 2598);
    lemma_turn(t, net, 3, 2, r, 1931, 3612);
    lemma_turn(t, net, 3, 3, r, 3920, 1189);
    let u = partial_stage(t, net, 3, 4, r);
    assert(-3 * m - 1 <= 2 * u[8] <= 3 * m + 1 && -3 * m - 1 <= 2 * u[9] <= 3 * m + 1 && -3 * m - 1 <= 2 * u[10] <= 3 * m + 1 && -3 * m - 1 <= 2 * u[11] <= 3 * m + 1 && -3 * m - 1 <= 2 * u[12] <= 3 * m + 1 && -3 * m - 1 <= 2 * u[13] <= 3 * m + 1 && -3 * m - 1 <= 2 * u[14] <= 3 * m + 1 && -3 * m - 1 <= 2 * u[15] <= 3 * m + 1);
}

/// Stage 7 on the odd half of sixteen values, in whole numbers.
#[verifier::opaque]
spec fn stage7(u1: Seq<i64>, u2: Seq<i64>) -> bool {
    &&& u2[8] == u1[8] + u1[9]
    &&& u2[9] == u1[8] - u1[9]
    &&& u2[10] == u1[11] - u1[10]
    &&& u2[11] == u1[10] + u1[11]
    &&& u2[12] == u1[12] + u1[13]
    &&& u2[13] == u1[12] - u1[13]
    &&& u2[14] == u1[15] - u1[14]
    &&& u2[15] == u1[14] + u1[15]
}

/// Stage 7 does as it should.
proof fn lemma_stage7(t: Seq<i64>, r: int, m: int)
    requires
        t.len() == 64,
        forall|p: int| 8 <= p < 16 ==> -m <= #[trigger] t[p] <= m,
        1 <= r,
        0 <= m <= 0x1000_0000_0000,
        2 * m < p2(r - 1),
    ensures
        ({
            let u = partial_stage(t, Network::Dct, 7, 4, r);
            &&& u.len() == 64
            &&& stage7(t, u)
            &&& forall|p: int| 8 <= p < 16 ==> -2 * m <= #[trigger] u[p] <= 2 * m
        }),
{
    let net = Network::Dct;
    assert(-m <= t[8] <= m && -m <= t[9] <= m && -m <= t[10] <= m && -m <= t[11] <= m && -m <= t[12] <= m && -m <= t[13] <= m && -m <= t[14] <= m && -m <= t[15] <= m);
    reveal(stage7);
    lemma_sum(t, net, 7, 0, r);
    lemma_sum(t, net, 7, 1, r);
    lemma_sum(t, net, 7, 2, r);
    lemma_sum(t, net, 7, 3, r);
    let u = partial_stage(t, net, 7, 4, r);
    assert(-2 * m <= u[8] <= 2 * m && -2 * m <= u[9] <= 2 * m && -2 * m <= u[10] <= 2 * m && -2 * m <= u[11] <= 2 * m && -2 * m <= u[12] <= 2 * m && -2 * m <= u[13] <= 2 * m && -2 * m <= u[14] <= 2 * m && -2 * m <= u[15] <= 2 * m);
}

/// Stage 12 on the odd half of sixteen values, in whole numbers.
#[verifier::opaque]
spec fn stage12(u2: Seq<i64>, u3: Seq<i64>) -> bool {
    &&& rounds(u3[9] as int, u2[14] * 1567 - u2[9] * 3784)
    &&& rounds(u3[14] as int, u2[14] * 3784 + u2[9] * 1567)
    &&& rounds(u3[10] as int, -3784 * u2[13] - u2[10] * 1567)
    &&& rounds(u3[13] as int, u2[13] * 1567 - u2[10] * 3784)
    &&& u3[8] == u2[8]
    &&& u3[11] == u2[11]
    &&& u3[12] == u2[12]
    &&& u3[15] == u2[15]
}

/// Stage 12 does as it should.
proof fn lemma_stage12(t: Seq<i64>, r: int, m: int)
    requires
        t.len() == 64,
        forall|p: int| 8 <= p < 16 ==> -m <= #[trigger] t[p] <= m,
        1 <= r,
        0 <= m <= 0x1000_0000_0000,
    ensures
        ({
            let u = partial_stage(t, Network::Dct, 12, 2, r);
            &&& u.len() == 64
            &&& stage12(t, u)
            &&& forall|p: int| 8 <= p < 16 ==> -3 * m - 1 <= 2 * #[trigger] u[p] <= 3 * m + 1
        }),
{
    let net = Network::Dct;
    assert(-m <= t[8] <= m && -m <= t[9] <= m && -m <= t[10] <= m && -m <= t[11] <= m && -m <= t[12] <= m && -m <= t[13] <= m && -m <= t[14] <= m && -m <= t[15] <= m);
    reveal(stage12);
    reveal(cos);
    reveal_with_fuel(reversed, 5);
    lemma_p2_values();
    lemma_turn(t, net, 12, 0, r, 1567, 3784);
    lemma_turn(t, net, 12, 1, r, -3784, 1567);
    lemma_rest(t, net, 12, 2, 8, r);
    lemma_rest(t, net, 12, 2, 11, r);
    lemma_rest(t, net, 12, 2, 12, r);
    lemma_rest(t, net, 12, 2, 15, r);
    let u = partial_stage(t, net, 12, 2, r);
    assert(-3 * m - 1 <= 2 * u[8] <= 3 * m + 1 && -3 * m - 1 <= 2 * u[9] <= 3 * m + 1 && -3 * m - 1 <= 2 * u[10] <= 3 * m + 1 && -3 * m - 1 <= 2 * u[11] <= 3 * m + 1 && -3 * m - 1 <= 2 * u[12] <= 3 * m + 1 && -3 * m - 1 <= 2 * u[13] <= 3 * m + 1 && -3 * m - 1 <= 2 * u[14] <= 3 * m + 1 && -3 * m - 1 <= 2 * u[15] <= 3 * m + 1);
}

/// Stage 17 on the odd half of sixteen values, in whole numbers.
#[verifier::opaque]
spec fn stage17(u3: Seq<i64>, u4: Seq<i64>) -> bool {
    &&& u4[8] == u3[8] + u3[11]
    &&& u4[11] == u3[8] - u3[11]
    &&& u4[9] == u3[9] + u3[10]
    &&& u4[10] == u3[9] - u3[10]
    &&& u4[12] == u3[15] - u3[12]
    &&& u4[15] == u3[12] + u3[15]
    &&& u4[13] == u3[14] - u3[13]
    &&& u4[14] == u3[13] + u3[14]
}

/// Stage 17 does as it should.
proof fn lemma_stage17(t: Seq<i64>, r: int, m: int)
    requires
        t.len() == 64,
        forall|p: int| 8 <= p < 16 ==> -m <= #[trigger] t[p] <= m,
        1 <= r,
        0 <= m <= 0x1000_0000_0000,
        2 * m < p2(r - 1),
    ensures
        ({
            let u = partial_stage(t, Network::Dct, 17, 4, r);
            &&& u.len() == 64
            &&& stage17(t, u)
            &&& forall|p: int| 8 <= p < 16 ==> -2 * m <= #[trigger] u[p] <= 2 * m
        }),
{
    let net = Network::Dct;
    assert(-m <= t[8] <= m && -m <= t[9] <= m && -m <= t[10] <= m && -m <= t[11] <= m && -m <= t[12] <= m && -m <= t[13] <= m && -m <= t[14] <= m && -m <= t[15] <= m);
    reveal(stage17);
    lemma_sum(t, net, 17, 0, r);
    lemma_sum(t, net, 17, 1, r);
    lemma_sum(t, net, 17, 2, r);
    lemma_sum(t, net, 17, 3, r);
    let u = partial_stage(t, net, 17, 4, r);
    assert(-2 * m <= u[8] <= 2 * m && -2 * m <= u[9] <= 2 * m && -2 * m <= u[10] <= 2 * m && -2 * m <= u[11] <= 2 * m && -2 * m <= u[12] <= 2 * m && -2 * m <= u[13] <= 2 * m && -2 * m <= u[14] <= 2 * m && -2 * m <= u[15] <= 2 * m);
}

/// Stage 21 on the odd half of sixteen values, in whole numbers.
#[verifier::opaque]
spec fn stage21(u4: Seq<i64>, u5: Seq<i64>) -> bool {
    &&& rounds(u5[10] as int, u4[13] * 2896 - u4[10] * 2896)
    &&& rounds(u5[13] as int, u4[13] * 2896 + u4[10] * 2896)
    &&& rounds(u5[11] as int, u4[12] * 2896 - u4[11] * 2896)
    &&& rounds(u5[12] as int, u4[12] * 2896 + u4[11] * 2896)
    &&& u5[8] == u4[8]
    &&& u5[9] == u4[9]
    &&& u5[14] == u4[14]
    &&& u5[15] == u4[15]
}

/// Stage 21 does as it should.
proof fn lemma_stage21(t: Seq<i64>, r: int, m: int)
    requires
        t.len() == 64,
        forall|p: int| 8 <= p < 16 ==> -m <= #[trigger] t[p] <= m,
        1 <= r,
        0 <= m <= 0x1000_0000_0000,
    ensures
        ({
            let u = partial_stage(t, Network::Dct, 21, 2, r);
            &&& u.len() == 64
            &&& stage21(t, u)
            &&& forall|p: int| 8 <= p < 16 ==> -3 * m - 1 <= 2 * #[trigger] u[p] <= 3 * m + 1
        }),
{
    let net = Network::Dct;
    assert(-m <= t[8] <= m && -m <= t[9] <= m && -m <= t[10] <= m && -m <= t[11] <= m && -m <= t[12] <= m && -m <= t[13] <= m && -m <= t[14] <= m && -m <= t[15] <= m);
    reveal(stage21);
    reveal(cos);
    reveal_with_fuel(reversed, 5);
    lemma_p2_values();
    lemma_turn(t, net, 21, 0, r, 2896, 2896);
    lemma_turn(t, net, 21, 1, r, 2896, 2896);
    lemma_rest(t, net, 21, 2, 8, r);
    lemma_rest(t, net, 21, 2, 9, r);
    lemma_rest(t, net, 21, 2, 14, r);
    lemma_rest(t, net, 21, 2, 15, r);
    let u = partial_stage(t, net, 21, 2, r);
    assert(-3 * m - 1 <= 2 * u[8] <= 3 * m + 1 && -3 * m - 1 <= 2 * u[9] <= 3 * m + 1 && -3 * m - 1 <= 2 * u[10] <= 3 * m + 1 && -3 * m - 1 <= 2 * u[11] <= 3 * m + 1 && -3 * m - 1 <= 2 * u[12] <= 3 * m + 1 && -3 * m - 1 <= 2 * u[13] <= 3 * m + 1 && -3 * m - 1 <= 2 * u[14] <= 3 * m + 1 && -3 * m - 1 <= 2 * u[15] <= 3 * m + 1);
}

/// The outputs of the odd half, after all its stages.
proof fn lemma_outputs(q: Seq<i64>, u1: Seq<i64>, u2: Seq<i64>, u3: Seq<i64>, u4: Seq<i64>, u5: Seq<i64>, m: int)
    requires
        stage3(q, u1),
        stage7(u1, u2),
        stage12(u2, u3),
        stage17(u3, u4),
        stage21(u4, u5),
        forall|p: int| 8 <= p < 16 ==> -m <= #[trigger] q[p] <= m,
    ensures
        -24576 - 6 * m <= 4096 * u5[15] - (q[8] * 4076 + q[12] * 3920 + q[10] * 3612 + q[14] * 3166 + q[9] * 2598 + q[13] * 1931 + q[11] * 1189 + q[15] * 401) <= 24576 + 6 * m,
        -24576 - 6 * m <= 4096 * u5[14] - (q[8] * 3920 + q[12] * 2598 + q[10] * 401 - q[14] * 1931 - q[9] * 3612 - q[13] * 4076 - q[11] * 3166 - q[15] * 1189) <= 24576 + 6 * m,
        -24576 - 6 * m <= 4096 * u5[13] - (q[8] * 3612 + q[12] * 401 - q[10] * 3166 - q[14] * 3920 - q[9] * 1189 + q[13] * 2598 + q[11] * 4076 + q[15] * 1931) <= 24576 + 6 * m,
        -24576 - 6 * m <= 4096 * u5[12] - (q[8] * 3166 - q[12] * 1931 - q[10] * 3920 + q[14] * 401 + q[9] * 4076 + q[13] * 1189 - q[11] * 3612 - q[15] * 2598) <= 24576 + 6 * m,
        -24576 - 6 * m <= 4096 * u5[11] - (q[8] * 2598 - q[12] * 3612 - q[10] * 1189 + q[14] * 4076 - q[9] * 401 - q[13] * 3920 + q[11] * 1931 + q[15] * 3166) <= 24576 + 6 * m,
        -24576 - 6 * m <= 4096 * u5[10] - (q[8] * 1931 - q[12] * 4076 + q[10] * 2598 + q[14] * 1189 - q[9] * 3920 + q[13] * 3166 + q[11] * 401 - q[15] * 3612) <= 24576 + 6 * m,
        -24576 - 6 * m <= 4096 * u5[9] - (q[8] * 1189 - q[12] * 3166 + q[10] * 4076 - q[14] * 3612 + q[9] * 1931 + q[13] * 401 - q[11] * 2598 + q[15] * 3920) <= 24576 + 6 * m,
        -24576 - 6 * m <= 4096 * u5[8] - (q[8] * 401 - q[12] * 1189 + q[10] * 1931 - q[14] * 2598 + q[9] * 3166 - q[13] * 3612 + q[11] * 3920 - q[15] * 4076) <= 24576 + 6 * m,
{
    reveal(stage3);
    reveal(stage7);
    reveal(stage12);
    reveal(stage17);
    reveal(stage21);
    assert(-m <= q[8] <= m && -m <= q[9] <= m && -m <= q[10] <= m && -m <= q[11] <= m && -m <= q[12] <= m && -m <= q[13] <= m && -m <= q[14] <= m && -m <= q[15] <= m);
}

/// The odd half, from its first stage to its last.
proof fn lemma_odd_network(q: Seq<i64>, r: int, m: int)
    requires
        q.len() == 64,
        1 <= r,
        0 <= m <= 0x10_0000_0000,
        40 * m + 40 < p2(r - 1),
        forall|p: int| 8 <= p < 16 ==> -m <= #[trigger] q[p] <= m,
    ensures
        ({
            let u = partial_network(q, Network::Dct, 4, 24, r);
            &&& -24576 - 6 * m <= 4096 * u[15] - (q[8] * 4076 + q[12] * 3920 + q[10] * 3612 + q[14] * 3166 + q[9] * 2598 + q[13] * 1931 + q[11] * 1189 + q[15] * 401) <= 24576 + 6 * m
            &&& -24576 - 6 * m <= 4096 * u[14] - (q[8] * 3920 + q[12] * 2598 + q[10] * 401 - q[14] * 1931 - q[9] * 3612 - q[13] * 4076 - q[11] * 3166 - q[15] * 1189) <= 24576 + 6 * m
            &&& -24576 - 6 * m <= 4096 * u[13] - (q[8] * 3612 + q[12] * 401 - q[10] * 3166 - q[14] * 3920 - q[9] * 1189 + q[13] * 2598 + q[11] * 4076 + q[15] * 1931) <= 24576 + 6 * m
            &&& -24576 - 6 * m <= 4096 * u[12] - (q[8] * 3166 - q[12] * 1931 - q[10] * 3920 + q[14] * 401 + q[9] * 4076 + q[13] * 1189 - q[11] * 3612 - q[15] * 2598) <= 24576 + 6 * m
            &&& -24576 - 6 * m <= 4096 * u[11] - (q[8] * 2598 - q[12] * 3612 - q[10] * 1189 + q[14] * 4076 - q[9] * 401 - q[13] * 3920 + q[11] * 1931 + q[15] * 3166) <= 24576 + 6 * m
            &&& -24576 - 6 * m <= 4096 * u[10] - (q[8] * 1931 - q[12] * 4076 + q[10] * 2598 + q[14] * 1189 - q[9] * 3920 + q[13] * 3166 + q[11] * 401 - q[15] * 3612) <= 24576 + 6 * m
            &&& -24576 - 6 * m <= 4096 * u[9] - (q[8] * 1189 - q[12] * 3166 + q[10] * 4076 - q[14] * 3612 + q[9] * 1931 + q[13] * 401 - q[11] * 2598 + q[15] * 3920) <= 24576 + 6 * m
            &&& -24576 - 6 * m <= 4096 * u[8] - (q[8] * 401 - q[12] * 1189 + q[10] * 1931 - q[14] * 2598 + q[9] * 3166 - q[13] * 3612 + q[11] * 3920 - q[15] * 4076) <= 24576 + 6 * m
        }),
{
    let net = Network::Dct;
    lemma_p2_values();
    let x0 = partial_network(q, net, 4, 3, r);
    lemma_upper_waits(q, 4, 0, 3, r);
    lemma_stage3(x0, r, m);
    let u1 = partial_network(q, net, 4, 4, r);
    assert(u1 == partial_stage(x0, net, 3, 4, r));
    assert(stage3(q, u1)) by {
        reveal(stage3);
        assert(x0[8] == q[8] && x0[9] == q[9] && x0[10] == q[10] && x0[11] == q[11] && x0[12] == q[12] && x0[13] == q[13] && x0[14] == q[14] && x0[15] == q[15]);
    }
    let x1 = partial_network(q, net, 4, 7, r);
    lemma_upper_waits(q, 4, 4, 7, r);
    lemma_stage7(x1, r, 2 * m + 1);
    let u2 = partial_network(q, net, 4, 8, r);
    assert(u2 == partial_stage(x1, net, 7, 4, r));
    assert(stage7(u1, u2)) by {
        reveal(stage7);
        assert(x1[8] == u1[8] && x1[9] == u1[9] && x1[10] == u1[10] && x1[11] == u1[11] && x1[12] == u1[12] && x1[13] == u1[13] && x1[14] == u1[14] && x1[15] == u1[15]);
    }
    let x2 = partial_network(q, net, 4, 12, r);
    lemma_upper_waits(q, 4, 8, 12, r);
    lemma_stage12(x2, r, 4 * m + 2);
    let u3 = partial_network(q, net, 4, 13, r);
    assert(u3 == partial_stage(x2, net, 12, 2, r));
    assert(stage12(u2, u3)) by {
        reveal(stage12);
        assert(x2[8] == u2[8] && x2[9] == u2[9] && x2[10] == u2[10] && x2[11] == u2[11] && x2[12] == u2[12] && x2[13] == u2[13] && x2[14] == u2[14] && x2[15] == u2[15]);
    }
    let x3 = partial_network(q, net, 4, 17, r);
    lemma_upper_waits(q, 4, 13, 17, r);
    lemma_stage17(x3, r, 6 * m + 4);
    let u4 = partial_network(q, net, 4, 18, r);
    assert(u4 == partial_stage(x3, net, 17, 4, r));
    assert(stage17(u3, u4)) by {
        reveal(stage17);
        assert(x3[8] == u3[8] && x3[9] == u3[9] && x3[10] == u3[10] && x3[11] == u3[11] && x3[12] == u3[12] && x3[13] == u3[13] && x3[14] == u3[14] && x3[15] == u3[15]);
    }
    let x4 = partial_network(q, net, 4, 21, r);
    lemma_upper_waits(q, 4, 18, 21, r);
    lemma_stage21(x4, r, 12 * m + 8);
    let u5 = partial_network(q, net, 4, 22, r);
    assert(u5 == partial_stage(x4, net, 21, 2, r));
    assert(stage21(u4, u5)) by {
        reveal(stage21);
        assert(x4[8] == u4[8] && x4[9] == u4[9] && x4[10] == u4[10] && x4[11] == u4[11] && x4[12] == u4[12] && x4[13] == u4[13] && x4[14] == u4[14] && x4[15] == u4[15]);
    }
    lemma_upper_waits(q, 4, 22, 24, r);
    lemma_outputs(q, u1, u2, u3, u4, u5, m);
}

/// The sum of the values at odd places, each times the cosine of its wave at place `k`.
pub open spec fn odd_cosines(t: Seq<i64>, k: int) -> int {
    t[1] * cos(4 * (2 * k + 1)) + t[3] * cos(12 * (2 * k + 1)) + t[5] * cos(20 * (2 * k + 1)) + t[7] * cos(28 * (2 * k + 1)) + t[9] * cos(36 * (2 * k + 1)) + t[11] * cos(44 * (2 * k + 1)) + t[13] * cos(52 * (2 * k + 1)) + t[15] * cos(60 * (2 * k + 1))
}

/// The sum with the cosines put in.
proof fn lemma_odd_cosines(t: Seq<i64>, k: int, c1: int, c3: int, c5: int, c7: int, c9: int, c11: int, c13: int, c15: int)
    requires
        cos(4 * (2 * k + 1)) == c1,
        cos(12 * (2 * k + 1)) == c3,
        cos(20 * (2 * k + 1)) == c5,
        cos(28 * (2 * k + 1)) == c7,
        cos(36 * (2 * k + 1)) == c9,
        cos(44 * (2 * k + 1)) == c11,
        cos(52 * (2 * k + 1)) == c13,
        cos(60 * (2 * k + 1)) == c15,
    ensures
        odd_cosines(t, k) == t[1] * c1 + t[3] * c3 + t[5] * c5 + t[7] * c7 + t[9] * c9 + t[11] * c11 + t[13] * c13 + t[15] * c15,
{
}

/// The sums at each place.
proof fn lemma_odd_cosines_by_place(t: Seq<i64>, k: int)
    requires
        0 <= k < 8,
    ensures
        k == 0 ==> odd_cosines(t, k) == t[1] * 4076 + t[3] * 3920 + t[5] * 3612 + t[7] * 3166 + t[9] * 2598 + t[11] * 1931 + t[13] * 1189 + t[15] * 401,
        k == 1 ==> odd_cosines(t, k) == t[1] * 3920 + t[3] * 2598 + t[5] * 401 - t[7] * 1931 - t[9] * 3612 - t[11] * 4076 - t[13] * 3166 - t[15] * 1189,
        k == 2 ==> odd_cosines(t, k) == t[1] * 3612 + t[3] * 401 - t[5] * 3166 - t[7] * 3920 - t[9] * 1189 + t[11] * 2598 + t[13] * 4076 + t[15] * 1931,
        k == 3 ==> odd_cosines(t, k) == t[1] * 3166 - t[3] * 1931 - t[5] * 3920 + t[7] * 401 + t[9] * 4076 + t[11] * 1189 - t[13] * 3612 - t[15] * 2598,
        k == 4 ==> odd_cosines(t, k) == t[1] * 2598 - t[3] * 3612 - t[5] * 1189 + t[7] * 4076 - t[9] * 401 - t[11] * 3920 + t[13] * 1931 + t[15] * 3166,
        k == 5 ==> odd_cosines(t, k) == t[1] * 1931 - t[3] * 4076 + t[5] * 2598 + t[7] * 1189 - t[9] * 3920 + t[11] * 3166 + t[13] * 401 - t[15] * 3612,
        k == 6 ==> odd_cosines(t, k) == t[1] * 1189 - t[3] * 3166 + t[5] * 4076 - t[7] * 3612 + t[9] * 1931 + t[11] * 401 - t[13] * 2598 + t[15] * 3920,
        k == 7 ==> odd_cosines(t, k) == t[1] * 401 - t[3] * 1189 + t[5] * 1931 - t[7] * 2598 + t[9] * 3166 - t[11] * 3612 + t[13] * 3920 - t[15] * 4076,
{
    reveal(cos);
    if k == 0 {
        lemma_odd_cosines(t, k, 4076, 3920, 3612, 3166, 2598, 1931, 1189, 401);
    } else if k == 1 {
        lemma_odd_cosines(t, k, 3920, 2598, 401, -1931, -3612, -4076, -3166, -1189);
    } else if k == 2 {
        lemma_odd_cosines(t, k, 3612, 401, -3166, -3920, -1189, 2598, 4076, 1931);
    } else if k == 3 {
        lemma_odd_cosines(t, k, 3166, -1931, -3920, 401, 4076, 1189, -3612, -2598);
    } else if k == 4 {
        lemma_odd_cosines(t, k, 2598, -3612, -1189, 4076, -401, -3920, 1931, 3166);
    } else if k == 5 {
        lemma_odd_cosines(t, k, 1931, -4076, 2598, 1189, -3920, 3166, 401, -3612);
    } else if k == 6 {
        lemma_odd_cosines(t, k, 1189, -3166, 4076, -3612, 1931, 401, -2598, 3920);
    } else if k == 7 {
        lemma_odd_cosines(t, k, 401, -1189, 1931, -2598, 3166, -3612, 3920, -4076);
    }
}

/// What the values at odd places give in the DCT of sixteen values: the sum of them times the
/// cosines of their waves at the place, to within 6 and 6 parts in 4096 of the greatest.
pub proof fn lemma_odd_part_is_a_sum_of_waves(t: Seq<i64>, r: int, m: int, k: int)
    requires
        t.len() == 64,
        1 <= r,
        0 <= m <= 0x10_0000_0000,
        40 * m + 40 < p2(r - 1),
        forall|p: int| 0 <= p < 16 ==> -m <= #[trigger] t[p] <= m,
        0 <= k < 8,
    ensures
        -24576 - 6 * m <= 4096 * odd_part(t, 4, r, k) - odd_cosines(t, k) <= 24576 + 6 * m,
{
    lemma_p2_values();
    let q = dct_order(t, 4);
    assert(q[8] == t[1] && q[9] == t[9] && q[10] == t[5] && q[11] == t[13] && q[12] == t[3] && q[13] == t[11] && q[14] == t[7] && q[15] == t[15]) by {
        reveal_with_fuel(reversed, 5);
    }
    assert(-m <= t[1] <= m && -m <= t[3] <= m && -m <= t[5] <= m && -m <= t[7] <= m && -m <= t[9] <= m && -m <= t[11] <= m && -m <= t[13] <= m && -m <= t[15] <= m);
    assert forall|p: int| 8 <= p < 16 implies -m <= #[trigger] q[p] <= m by {
        assert(p == 8 || p == 9 || p == 10 || p == 11 || p == 12 || p == 13 || p == 14 || p == 15);
    }
    lemma_odd_network(q, r, m);
    lemma_odd_cosines_by_place(t, k);
}

} // verus!
