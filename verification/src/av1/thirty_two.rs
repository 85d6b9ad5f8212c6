//! Sums of waves at odd places: what they add to a DCT of thirty-two values.
use super::butterfly::{cos, dct_order, lemma_reversed, partial_network, partial_stage, reversed, Network};
use super::halves::{lemma_upper_waits, odd_part};
use super::sums::{lemma_rest, lemma_sum, lemma_turn, rounds};
use crate::math::{lemma_p2_values, p2};
use vstd::prelude::*;

verus! {

/// Stage 1 of the odd half of thirty-two values, in whole numbers.
#[verifier::opaque]
spec fn stage1(q: Seq<i64>, u1: Seq<i64>) -> bool {
    &&& rounds(u1[16] as int, q[16] * 201 - q[31] * 4091)
    &&& rounds(u1[31] as int, q[16] * 4091 + q[31] * 201)
    &&& rounds(u1[17] as int, q[17] * 3035 - q[30] * 2751)
    &&& rounds(u1[30] as int, q[17] * 2751 + q[30] * 3035)
    &&& rounds(u1[18] as int, q[18] * 1751 - q[29] * 3703)
    &&& rounds(u1[29] as int, q[18] * 3703 + q[29] * 1751)
    &&& rounds(u1[19] as int, q[19] * 3857 - q[28] * 1380)
    &&& rounds(u1[28] as int, q[19] * 1380 + q[28] * 3857)
    &&& rounds(u1[20] as int, q[20] * 995 - q[27] * 3973)
    &&& rounds(u1[27] as int, q[20] * 3973 + q[27] * 995)
    &&& rounds(u1[21] as int, q[21] * 3513 - q[26] * 2106)
    &&& rounds(u1[26] as int, q[21] * 2106 + q[26] * 3513)
    &&& rounds(u1[22] as int, q[22] * 2440 - q[25] * 3290)
    &&& rounds(u1[25] as int, q[22] * 3290 + q[25] * 2440)
    &&& rounds(u1[23] as int, q[23] * 4052 - q[24] * 601)
    &&& rounds(u1[24] as int, q[23] * 601 + q[24] * 4052)
}

/// Stage 1 does as it should.
proof fn lemma_stage1(t: Seq<i64>, r: int, m: int)
    requires
        t.len() == 64,
        forall|p: int| 16 <= p < 32 ==> -m <= #[trigger] t[p] <= m,
        1 <= r,
        0 <= m <= 0x1000_0000_0000,
    ensures
        ({
            let u = partial_stage(t, Network::Dct, 1, 8, r);
            &&& u.len() == 64
            &&& stage1(t, u)
            &&& forall|p: int| 16 <= p < 32 ==> -3 * m - 1 <= 2 * #[trigger] u[p] <= 3 * m + 1
        }),
{
    let net = Network::Dct;
    assert(-m <= t[16] <= m && -m <= t[17] <= m && -m <= t[18] <= m && -m <= t[19] <= m && -m <= t[20] <= m && -m <= t[21] <= m && -m <= t[22] <= m && -m <= t[23] <= m && -m <= t[24] <= m && -m <= t[25] <= m && -m <= t[26] <= m && -m <= t[27] <= m && -m <= t[28] <= m && -m <= t[29] <= m && -m <= t[30] <= m && -m <= t[31] <= m);
    reveal(stage1);
    reveal(cos);
    reveal_with_fuel(reversed, 5);
    lemma_p2_values();
    lemma_turn(t, net, 1, 0, r, 201, 4091);
    lemma_turn(t, net, 1, 1, r, 3035, 2751);
    lemma_turn(t, net, 1, 2, r, 1751, 3703);
    lemma_turn(t, net, 1, 3, r, 3857, 1380);
    lemma_turn(t, net, 1, 4, r, 995, 3973);
    lemma_turn(t, net, 1, 5, r, 3513, 2106);
    lemma_turn(t, net, 1, 6, r, 2440, 3290);
    lemma_turn(t, net, 1, 7, r, 4052, 601);
    let u = partial_stage(t, net, 1, 8, r);
    assert(-3 * m - 1 <= 2 * u[16] <= 3 * m + 1 && -3 * m - 1 <= 2 * u[17] <= 3 * m + 1 && -3 * m - 1 <= 2 * u[18] <= 3 * m + 1 && -3 * m - 1 <= 2 * u[19] <= 3 * m + 1 && -3 * m - 1 <= 2 * u[20] <= 3 * m + 1 && -3 * m - 1 <= 2 * u[21] <= 3 * m + 1 && -3 * m - 1 <= 2 * u[22] <= 3 * m + 1 && -3 * m - 1 <= 2 * u[23] <= 3 * m + 1 && -3 * m - 1 <= 2 * u[24] <= 3 * m + 1 && -3 * m - 1 <= 2 * u[25] <= 3 * m + 1 && -3 * m - 1 <= 2 * u[26] <= 3 * m + 1 && -3 * m - 1 <= 2 * u[27] <= 3 * m + 1 && -3 * m - 1 <= 2 * u[28] <= 3 * m + 1 && -3 * m - 1 <= 2 * u[29] <= 3 * m + 1 && -3 * m - 1 <= 2 * u[30] <= 3 * m + 1 && -3 * m - 1 <= 2 * u[31] <= 3 * m + 1);
}

/// Stage 4 of the odd half of thirty-two values, in whole numbers.
#[verifier::opaque]
spec fn stage4(u1: Seq<i64>, u2: Seq<i64>) -> bool {
    &&& u2[16] == u1[16] + u1[17]
    &&& u2[17] == u1[16] - u1[17]
    &&& u2[18] == u1[19] - u1[18]
    &&& u2[19] == u1[18] + u1[19]
    &&& u2[20] == u1[20] + u1[21]
    &&& u2[21] == u1[20] - u1[21]
    &&& u2[22] == u1[23] - u1[22]
    &&& u2[23] == u1[22] + u1[23]
    &&& u2[24] == u1[24] + u1[25]
    &&& u2[25] == u1[24] - u1[25]
    &&& u2[26] == u1[27] - u1[26]
    &&& u2[27] == u1[26] + u1[27]
    &&& u2[28] == u1[28] + u1[29]
    &&& u2[29] == u1[28] - u1[29]
    &&& u2[30] == u1[31] - u1[30]
    &&& u2[31] == u1[30] + u1[31]
}

/// Stage 4 does as it should.
proof fn lemma_stage4(t: Seq<i64>, r: int, m: int)
    requires
        t.len() == 64,
        forall|p: int| 16 <= p < 32 ==> -m <= #[trigger] t[p] <= m,
        1 <= r,
        0 <= m <= 0x1000_0000_0000,
        2 * m < p2(r - 1),
    ensures
        ({
            let u = partial_stage(t, Network::Dct, 4, 8, r);
            &&& u.len() == 64
            &&& stage4(t, u)
            &&& forall|p: int| 16 <= p < 32 ==> -2 * m <= #[trigger] u[p] <= 2 * m
        }),
{
    let net = Network::Dct;
    assert(-m <= t[16] <= m && -m <= t[17] <= m && -m <= t[18] <= m && -m <= t[19] <= m && -m <= t[20] <= m && -m <= t[21] <= m && -m <= t[22] <= m && -m <= t[23] <= m && -m <= t[24] <= m && -m <= t[25] <= m && -m <= t[26] <= m && -m <= t[27] <= m && -m <= t[28] <= m && -m <= t[29] <= m && -m <= t[30] <= m && -m <= t[31] <= m);
    reveal(stage4);
    lemma_sum(t, net, 4, 0, r);
    lemma_sum(t, net, 4, 1, r);
    lemma_sum(t, net, 4, 2, r);
    lemma_sum(t, net, 4, 3, r);
    lemma_sum(t, net, 4, 4, r);
    lemma_sum(t, net, 4, 5, r);
    lemma_sum(t, net, 4, 6, r);
    lemma_sum(t, net, 4, 7, r);
    let u = partial_stage(t, net, 4, 8, r);
    assert(-2 * m <= u[16] <= 2 * m && -2 * m <= u[17] <= 2 * m && -2 * m <= u[18] <= 2 * m && -2 * m <= u[19] <= 2 * m && -2 * m <= u[20] <= 2 * m && -2 * m <= u[21] <= 2 * m && -2 * m <= u[22] <= 2 * m && -2 * m <= u[23] <= 2 * m && -2 * m <= u[24] <= 2 * m && -2 * m <= u[25] <= 2 * m && -2 * m <= u[26] <= 2 * m && -2 * m <= u[27] <= 2 * m && -2 * m <= u[28] <= 2 * m && -2 * m <= u[29] <= 2 * m && -2 * m <= u[30] <= 2 * m && -2 * m <= u[31] <= 2 * m);
}

/// Stage 8 of the odd half of thirty-two values, in whole numbers.
#[verifier::opaque]
spec fn stage8(u2: Seq<i64>, u3: Seq<i64>) -> bool {
    &&& rounds(u3[17] as int, u2[30] * 799 - u2[17] * 4017)
    &&& rounds(u3[30] as int, u2[30] * 4017 + u2[17] * 799)
    &&& rounds(u3[18] as int, -4017 * u2[29] - u2[18] * 799)
    &&& rounds(u3[29] as int, u2[29] * 799 - u2[18] * 4017)
    &&& rounds(u3[21] as int, u2[26] * 3406 - u2[21] * 2276)
    &&& rounds(u3[26] as int, u2[26] * 2276 + u2[21] * 3406)
    &&& rounds(u3[22] as int, -2276 * u2[25] - u2[22] * 3406)
    &&& rounds(u3[25] as int, u2[25] * 3406 - u2[22] * 2276)
    &&& u3[16] == u2[16]
    &&& u3[19] == u2[19]
    &&& u3[20] == u2[20]
    &&& u3[23] == u2[23]
    &&& u3[24] == u2[24]
    &&& u3[27] == u2[27]
    &&& u3[28] == u2[28]
    &&& u3[31] == u2[31]
}

/// Stage 8 does as it should.
proof fn lemma_stage8(t: Seq<i64>, r: int, m: int)
    requires
        t.len() == 64,
        forall|p: int| 16 <= p < 32 ==> -m <= #[trigger] t[p] <= m,
        1 <= r,
        0 <= m <= 0x1000_0000_0000,
    ensures
        ({
            let u = partial_stage(t, Network::Dct, 8, 4, r);
            &&& u.len() == 64
            &&& stage8(t, u)
            &&& forall|p: int| 16 <= p < 32 ==> -3 * m - 1 <= 2 * #[trigger] u[p] <= 3 * m + 1
        }),
{
    let net = Network::Dct;
    assert(-m <= t[16] <= m && -m <= t[17] <= m && -m <= t[18] <= m && -m <= t[19] <= m && -m <= t[20] <= m && -m <= t[21] <= m && -m <= t[22] <= m && -m <= t[23] <= m && -m <= t[24] <= m && -m <= t[25] <= m && -m <= t[26] <= m && -m <= t[27] <= m && -m <= t[28] <= m && -m <= t[29] <= m && -m <= t[30] <= m && -m <= t[31] <= m);
    reveal(stage8);
    reveal(cos);
    reveal_with_fuel(reversed, 5);
    lemma_p2_values();
    lemma_turn(t, net, 8, 0, r, 799, 4017);
    lemma_turn(t, net, 8, 1, r, -4017, 799);
    lemma_turn(t, net, 8, 2, r, 3406, 2276);
    lemma_turn(t, net, 8, 3, r, -2276, 3406);
    lemma_rest(t, net, 8, 4, 16, r);
    lemma_rest(t, net, 8, 4, 19, r);
    lemma_rest(t, net, 8, 4, 20, r);
    lemma_rest(t, net, 8, 4, 23, r);
    lemma_rest(t, net, 8, 4, 24, r);
    lemma_rest(t, net, 8, 4, 27, r);
    lemma_rest(t, net, 8, 4, 28, r);
    lemma_rest(t, net, 8, 4, 31, r);
    let u = partial_stage(t, net, 8, 4, r);
    assert(-3 * m - 1 <= 2 * u[16] <= 3 * m + 1 && -3 * m - 1 <= 2 * u[17] <= 3 * m + 1 && -3 * m - 1 <= 2 * u[18] <= 3 * m + 1 && -3 * m - 1 <= 2 * u[19] <= 3 * m + 1 && -3 * m - 1 <= 2 * u[20] <= 3 * m + 1 && -3 * m - 1 <= 2 * u[21] <= 3 * m + 1 && -3 * m - 1 <= 2 * u[22] <= 3 * m + 1 && -3 * m - 1 <= 2 * u[23] <= 3 * m + 1 && -3 * m - 1 <= 2 * u[24] <= 3 * m + 1 && -3 * m - 1 <= 2 * u[25] <= 3 * m + 1 && -3 * m - 1 <= 2 * u[26] <= 3 * m + 1 && -3 * m - 1 <= 2 * u[27] <= 3 * m + 1 && -3 * m - 1 <= 2 * u[28] <= 3 * m + 1 && -3 * m - 1 <= 2 * u[29] <= 3 * m + 1 && -3 * m - 1 <= 2 * u[30] <= 3 * m + 1 && -3 * m - 1 <= 2 * u[31] <= 3 * m + 1);
}

/// Stage 13 of the odd half of thirty-two values, in whole numbers.
#[verifier::opaque]
spec fn stage13(u3: Seq<i64>, u4: Seq<i64>) -> bool {
    &&& u4[16] == u3[16] + u3[19]
    &&& u4[19] == u3[16] - u3[19]
    &&& u4[17] == u3[17] + u3[18]
    &&& u4[18] == u3[17] - u3[18]
    &&& u4[20] == u3[23] - u3[20]
    &&& u4[23] == u3[20] + u3[23]
    &&& u4[21] == u3[22] - u3[21]
    &&& u4[22] == u3[21] + u3[22]
    &&& u4[24] == u3[24] + u3[27]
    &&& u4[27] == u3[24] - u3[27]
    &&& u4[25] == u3[25] + u3[26]
    &&& u4[26] == u3[25] - u3[26]
    &&& u4[28] == u3[31] - u3[28]
    &&& u4[31] == u3[28] + u3[31]
    &&& u4[29] == u3[30] - u3[29]
    &&& u4[30] == u3[29] + u3[30]
}

/// Stage 13 does as it should.
proof fn lemma_stage13(t: Seq<i64>, r: int, m: int)
    requires
        t.len() == 64,
        forall|p: int| 16 <= p < 32 ==> -m <= #[trigger] t[p] <= m,
        1 <= r,
        0 <= m <= 0x1000_0000_0000,
        2 * m < p2(r - 1),
    ensures
        ({
            let u = partial_stage(t, Network::Dct, 13, 8, r);
            &&& u.len() == 64
            &&& stage13(t, u)
            &&& forall|p: int| 16 <= p < 32 ==> -2 * m <= #[trigger] u[p] <= 2 * m
        }),
{
    let net = Network::Dct;
    assert(-m <= t[16] <= m && -m <= t[17] <= m && -m <= t[18] <= m && -m <= t[19] <= m && -m <= t[20] <= m && -m <= t[21] <= m && -m <= t[22] <= m && -m <= t[23] <= m && -m <= t[24] <= m && -m <= t[25] <= m && -m <= t[26] <= m && -m <= t[27] <= m && -m <= t[28] <= m && -m <= t[29] <= m && -m <= t[30] <= m && -m <= t[31] <= m);
    reveal(stage13);
    lemma_sum(t, net, 13, 0, r);
    lemma_sum(t, net, 13, 1, r);
    lemma_sum(t, net, 13, 2, r);
    lemma_sum(t, net, 13, 3, r);
    lemma_sum(t, net, 13, 4, r);
    lemma_sum(t, net, 13, 5, r);
    lemma_sum(t, net, 13, 6, r);
    lemma_sum(t, net, 13, 7, r);
    let u = partial_stage(t, net, 13, 8, r);
    assert(-2 * m <= u[16] <= 2 * m && -2 * m <= u[17] <= 2 * m && -2 * m <= u[18] <= 2 * m && -2 * m <= u[19] <= 2 * m && -2 * m <= u[20] <= 2 * m && -2 * m <= u[21] <= 2 * m && -2 * m <= u[22] <= 2 * m && -2 * m <= u[23] <= 2 * m && -2 * m <= u[24] <= 2 * m && -2 * m <= u[25] <= 2 * m && -2 * m <= u[26] <= 2 * m && -2 * m <= u[27] <= 2 * m && -2 * m <= u[28] <= 2 * m && -2 * m <= u[29] <= 2 * m && -2 * m <= u[30] <= 2 * m && -2 * m <= u[31] <= 2 * m);
}

/// Stage 18 of the odd half of thirty-two values, in whole numbers.
#[verifier::opaque]
spec fn stage18(u4: Seq<i64>, u5: Seq<i64>) -> bool {
    &&& rounds(u5[18] as int, u4[29] * 1567 - u4[18] * 3784)
    &&& rounds(u5[29] as int, u4[29] * 3784 + u4[18] * 1567)
    &&& rounds(u5[19] as int, u4[28] * 1567 - u4[19] * 3784)
    &&& rounds(u5[28] as int, u4[28] * 3784 + u4[19] * 1567)
    &&& rounds(u5[20] as int, -3784 * u4[27] - u4[20] * 1567)
    &&& rounds(u5[27] as int, u4[27] * 1567 - u4[20] * 3784)
    &&& rounds(u5[21] as int, -3784 * u4[26] - u4[21] * 1567)
    &&& rounds(u5[26] as int, u4[26] * 1567 - u4[21] * 3784)
    &&& u5[16] == u4[16]
    &&& u5[17] == u4[17]
    &&& u5[22] == u4[22]
    &&& u5[23] == u4[23]
    &&& u5[24] == u4[24]
    &&& u5[25] == u4[25]
    &&& u5[30] == u4[30]
    &&& u5[31] == u4[31]
}

/// Stage 18 does as it should.
proof fn lemma_stage18(t: Seq<i64>, r: int, m: int)
    requires
        t.len() == 64,
        forall|p: int| 16 <= p < 32 ==> -m <= #[trigger] t[p] <= m,
        1 <= r,
        0 <= m <= 0x1000_0000_0000,
    ensures
        ({
            let u = partial_stage(t, Network::Dct, 18, 4, r);
            &&& u.len() == 64
            &&& stage18(t, u)
            &&& forall|p: int| 16 <= p < 32 ==> -3 * m - 1 <= 2 * #[trigger] u[p] <= 3 * m + 1
        }),
{
    let net = Network::Dct;
    assert(-m <= t[16] <= m && -m <= t[17] <= m && -m <= t[18] <= m && -m <= t[19] <= m && -m <= t[20] <= m && -m <= t[21] <= m && -m <= t[22] <= m && -m <= t[23] <= m && -m <= t[24] <= m && -m <= t[25] <= m && -m <= t[26] <= m && -m <= t[27] <= m && -m <= t[28] <= m && -m <= t[29] <= m && -m <= t[30] <= m && -m <= t[31] <= m);
    reveal(stage18);
    reveal(cos);
    reveal_with_fuel(reversed, 5);
    lemma_p2_values();
    lemma_turn(t, net, 18, 0, r, 1567, 3784);
    lemma_turn(t, net, 18, 1, r, 1567, 3784);
    lemma_turn(t, net, 18, 2, r, -3784, 1567);
    lemma_turn(t, net, 18, 3, r, -3784, 1567);
    lemma_rest(t, net, 18, 4, 16, r);
    lemma_rest(t, net, 18, 4, 17, r);
    lemma_rest(t, net, 18, 4, 22, r);
    lemma_rest(t, net, 18, 4, 23, r);
    lemma_rest(t, net, 18, 4, 24, r);
    lemma_rest(t, net, 18, 4, 25, r);
    lemma_rest(t, net, 18, 4, 30, r);
    lemma_rest(t, net, 18, 4, 31, r);
    let u = partial_stage(t, net, 18, 4, r);
    assert(-3 * m - 1 <= 2 * u[16] <= 3 * m + 1 && -3 * m - 1 <= 2 * u[17] <= 3 * m + 1 && -3 * m - 1 <= 2 * u[18] <= 3 * m + 1 && -3 * m - 1 <= 2 * u[19] <= 3 * m + 1 && -3 * m - 1 <= 2 * u[20] <= 3 * m + 1 && -3 * m - 1 <= 2 * u[21] <= 3 * m + 1 && -3 * m - 1 <= 2 * u[22] <= 3 * m + 1 && -3 * m - 1 <= 2 * u[23] <= 3 * m + 1 && -3 * m - 1 <= 2 * u[24] <= 3 * m + 1 && -3 * m - 1 <= 2 * u[25] <= 3 * m + 1 && -3 * m - 1 <= 2 * u[26] <= 3 * m + 1 && -3 * m - 1 <= 2 * u[27] <= 3 * m + 1 && -3 * m - 1 <= 2 * u[28] <= 3 * m + 1 && -3 * m - 1 <= 2 * u[29] <= 3 * m + 1 && -3 * m - 1 <= 2 * u[30] <= 3 * m + 1 && -3 * m - 1 <= 2 * u[31] <= 3 * m + 1);
}

/// Stage 22 of the odd half of thirty-two values, in whole numbers.
#[verifier::opaque]
spec fn stage22(u5: Seq<i64>, u6: Seq<i64>) -> bool {
    &&& u6[16] == u5[16] + u5[23]
    &&& u6[23] == u5[16] - u5[23]
    &&& u6[17] == u5[17] + u5[22]
    &&& u6[22] == u5[17] - u5[22]
    &&& u6[18] == u5[18] + u5[21]
    &&& u6[21] == u5[18] - u5[21]
    &&& u6[19] == u5[19] + u5[20]
    &&& u6[20] == u5[19] - u5[20]
    &&& u6[24] == u5[31] - u5[24]
    &&& u6[31] == u5[24] + u5[31]
    &&& u6[25] == u5[30] - u5[25]
    &&& u6[30] == u5[25] + u5[30]
    &&& u6[26] == u5[29] - u5[26]
    &&& u6[29] == u5[26] + u5[29]
    &&& u6[27] == u5[28] - u5[27]
    &&& u6[28] == u5[27] + u5[28]
}

/// Stage 22 does as it should.
proof fn lemma_stage22(t: Seq<i64>, r: int, m: int)
    requires
        t.len() == 64,
        forall|p: int| 16 <= p < 32 ==> -m <= #[trigger] t[p] <= m,
        1 <= r,
        0 <= m <= 0x1000_0000_0000,
        2 * m < p2(r - 1),
    ensures
        ({
            let u = partial_stage(t, Network::Dct, 22, 8, r);
            &&& u.len() == 64
            &&& stage22(t, u)
            &&& forall|p: int| 16 <= p < 32 ==> -2 * m <= #[trigger] u[p] <= 2 * m
        }),
{
    let net = Network::Dct;
    assert(-m <= t[16] <= m && -m <= t[17] <= m && -m <= t[18] <= m && -m <= t[19] <= m && -m <= t[20] <= m && -m <= t[21] <= m && -m <= t[22] <= m && -m <= t[23] <= m && -m <= t[24] <= m && -m <= t[25] <= m && -m <= t[26] <= m && -m <= t[27] <= m && -m <= t[28] <= m && -m <= t[29] <= m && -m <= t[30] <= m && -m <= t[31] <= m);
    reveal(stage22);
    lemma_sum(t, net, 22, 0, r);
    lemma_sum(t, net, 22, 1, r);
    lemma_sum(t, net, 22, 2, r);
    lemma_sum(t, net, 22, 3, r);
    lemma_sum(t, net, 22, 4, r);
    lemma_sum(t, net, 22, 5, r);
    lemma_sum(t, net, 22, 6, r);
    lemma_sum(t, net, 22, 7, r);
    let u = partial_stage(t, net, 22, 8, r);
    assert(-2 * m <= u[16] <= 2 * m && -2 * m <= u[17] <= 2 * m && -2 * m <= u[18] <= 2 * m && -2 * m <= u[19] <= 2 * m && -2 * m <= u[20] <= 2 * m && -2 * m <= u[21] <= 2 * m && -2 * m <= u[22] <= 2 * m && -2 * m <= u[23] <= 2 * m && -2 * m <= u[24] <= 2 * m && -2 * m <= u[25] <= 2 * m && -2 * m <= u[26] <= 2 * m && -2 * m <= u[27] <= 2 * m && -2 * m <= u[28] <= 2 * m && -2 * m <= u[29] <= 2 * m && -2 * m <= u[30] <= 2 * m && -2 * m <= u[31] <= 2 * m);
}

/// Stage 25 of the odd half of thirty-two values, in whole numbers.
#[verifier::opaque]
spec fn stage25(u6: Seq<i64>, u7: Seq<i64>) -> bool {
    &&& rounds(u7[20] as int, u6[27] * 2896 - u6[20] * 2896)
    &&& rounds(u7[27] as int, u6[27] * 2896 + u6[20] * 2896)
    &&& rounds(u7[21] as int, u6[26] * 2896 - u6[21] * 2896)
    &&& rounds(u7[26] as int, u6[26] * 2896 + u6[21] * 2896)
    &&& rounds(u7[22] as int, u6[25] * 2896 - u6[22] * 2896)
    &&& rounds(u7[25] as int, u6[25] * 2896 + u6[22] * 2896)
    &&& rounds(u7[23] as int, u6[24] * 2896 - u6[23] * 2896)
    &&& rounds(u7[24] as int, u6[24] * 2896 + u6[23] * 2896)
    &&& u7[16] == u6[16]
    &&& u7[17] == u6[17]
    &&& u7[18] == u6[18]
    &&& u7[19] == u6[19]
    &&& u7[28] == u6[28]
    &&& u7[29] == u6[29]
    &&& u7[30] == u6[30]
    &&& u7[31] == u6[31]
}

/// Stage 25 does as it should.
proof fn lemma_stage25(t: Seq<i64>, r: int, m: int)
    requires
        t.len() == 64,
        forall|p: int| 16 <= p < 32 ==> -m <= #[trigger] t[p] <= m,
        1 <= r,
        0 <= m <= 0x1000_0000_0000,
    ensures
        ({
            let u = partial_stage(t, Network::Dct, 25, 4, r);
            &&& u.len() == 64
            &&& stage25(t, u)
            &&& forall|p: int| 16 <= p < 32 ==> -3 * m - 1 <= 2 * #[trigger] u[p] <= 3 * m + 1
        }),
{
    let net = Network::Dct;
    assert(-m <= t[16] <= m && -m <= t[17] <= m && -m <= t[18] <= m && -m <= t[19] <= m && -m <= t[20] <= m && -m <= t[21] <= m && -m <= t[22] <= m && -m <= t[23] <= m && -m <= t[24] <= m && -m <= t[25] <= m && -m <= t[26] <= m && -m <= t[27] <= m && -m <= t[28] <= m && -m <= t[29] <= m && -m <= t[30] <= m && -m <= t[31] <= m);
    reveal(stage25);
    reveal(cos);
    reveal_with_fuel(reversed, 5);
    lemma_p2_values();
    lemma_turn(t, net, 25, 0, r, 2896, 2896);
    lemma_turn(t, net, 25, 1, r, 2896, 2896);
    lemma_turn(t, net, 25, 2, r, 2896, 2896);
    lemma_turn(t, net, 25, 3, r, 2896, 2896);
    lemma_rest(t, net, 25, 4, 16, r);
    lemma_rest(t, net, 25, 4, 17, r);
    lemma_rest(t, net, 25, 4, 18, r);
    lemma_rest(t, net, 25, 4, 19, r);
    lemma_rest(t, net, 25, 4, 28, r);
    lemma_rest(t, net, 25, 4, 29, r);
    lemma_rest(t, net, 25, 4, 30, r);
    lemma_rest(t, net, 25, 4, 31, r);
    let u = partial_stage(t, net, 25, 4, r);
    assert(-3 * m - 1 <= 2 * u[16] <= 3 * m + 1 && -3 * m - 1 <= 2 * u[17] <= 3 * m + 1 && -3 * m - 1 <= 2 * u[18] <= 3 * m + 1 && -3 * m - 1 <= 2 * u[19] <= 3 * m + 1 && -3 * m - 1 <= 2 * u[20] <= 3 * m + 1 && -3 * m - 1 <= 2 * u[21] <= 3 * m + 1 && -3 * m - 1 <= 2 * u[22] <= 3 * m + 1 && -3 * m - 1 <= 2 * u[23] <= 3 * m + 1 && -3 * m - 1 <= 2 * u[24] <= 3 * m + 1 && -3 * m - 1 <= 2 * u[25] <= 3 * m + 1 && -3 * m - 1 <= 2 * u[26] <= 3 * m + 1 && -3 * m - 1 <= 2 * u[27] <= 3 * m + 1 && -3 * m - 1 <= 2 * u[28] <= 3 * m + 1 && -3 * m - 1 <= 2 * u[29] <= 3 * m + 1 && -3 * m - 1 <= 2 * u[30] <= 3 * m + 1 && -3 * m - 1 <= 2 * u[31] <= 3 * m + 1);
}

/// What the values are midway, in terms of the input, to within little.
#[verifier::opaque]
spec fn midway(q: Seq<i64>, u: Seq<i64>, m: int) -> bool {
    &&& -15460 - 2 * m <= 4096 * u[16] - (q[16] * 201 + q[17] * 3035 + q[18] * 1751 + q[19] * 3857 - q[28] * 1380 - q[29] * 3703 - q[30] * 2751 - q[31] * 4091) <= 15460 + 2 * m
    &&& -15460 - 2 * m <= 4096 * u[17] - (q[16] * 601 + q[17] * 2440 + q[18] * 3973 - q[19] * 2106 - q[28] * 3513 + q[29] * 995 - q[30] * 3290 + q[31] * 4051) <= 15460 + 2 * m
    &&& -15460 - 2 * m <= 4096 * u[18] - (q[16] * 601 + q[17] * 2440 - q[18] * 3973 + q[19] * 2106 + q[28] * 3513 - q[29] * 995 - q[30] * 3290 + q[31] * 4051) <= 15460 + 2 * m
    &&& -15460 - 2 * m <= 4096 * u[19] - (q[16] * 201 + q[17] * 3035 - q[18] * 1751 - q[19] * 3857 + q[28] * 1380 + q[29] * 3703 - q[30] * 2751 - q[31] * 4091) <= 15460 + 2 * m
    &&& -15460 - 2 * m <= 4096 * u[20] - (-995 * q[20] - q[21] * 3513 + q[22] * 2440 + q[23] * 4052 - q[24] * 601 - q[25] * 3290 + q[26] * 2106 + q[27] * 3973) <= 15460 + 2 * m
    &&& -15460 - 2 * m <= 4096 * u[21] - (-2751 * q[20] - q[21] * 201 + q[22] * 3857 - q[23] * 3703 - q[24] * 1752 - q[25] * 1380 + q[26] * 4091 - q[27] * 3035) <= 15460 + 2 * m
    &&& -15460 - 2 * m <= 4096 * u[22] - (q[20] * 2751 + q[21] * 201 + q[22] * 3857 - q[23] * 3703 - q[24] * 1752 - q[25] * 1380 - q[26] * 4091 + q[27] * 3035) <= 15460 + 2 * m
    &&& -15460 - 2 * m <= 4096 * u[23] - (q[20] * 995 + q[21] * 3513 + q[22] * 2440 + q[23] * 4052 - q[24] * 601 - q[25] * 3290 - q[26] * 2106 - q[27] * 3973) <= 15460 + 2 * m
    &&& -15460 - 2 * m <= 4096 * u[24] - (q[20] * 3973 + q[21] * 2106 + q[22] * 3290 + q[23] * 601 + q[24] * 4052 + q[25] * 2440 + q[26] * 3513 + q[27] * 995) <= 15460 + 2 * m
    &&& -15460 - 2 * m <= 4096 * u[25] - (q[20] * 3035 - q[21] * 4091 - q[22] * 1380 - q[23] * 1752 + q[24] * 3703 - q[25] * 3857 - q[26] * 201 - q[27] * 2751) <= 15460 + 2 * m
    &&& -15460 - 2 * m <= 4096 * u[26] - (-3035 * q[20] + q[21] * 4091 - q[22] * 1380 - q[23] * 1752 + q[24] * 3703 - q[25] * 3857 + q[26] * 201 + q[27] * 2751) <= 15460 + 2 * m
    &&& -15460 - 2 * m <= 4096 * u[27] - (-3973 * q[20] - q[21] * 2106 + q[22] * 3290 + q[23] * 601 + q[24] * 4052 + q[25] * 2440 - q[26] * 3513 - q[27] * 995) <= 15460 + 2 * m
    &&& -15460 - 2 * m <= 4096 * u[28] - (q[16] * 4091 + q[17] * 2751 - q[18] * 3703 - q[19] * 1380 - q[28] * 3857 - q[29] * 1751 + q[30] * 3035 + q[31] * 201) <= 15460 + 2 * m
    &&& -15460 - 2 * m <= 4096 * u[29] - (q[16] * 4051 - q[17] * 3290 - q[18] * 995 + q[19] * 3513 - q[28] * 2106 + q[29] * 3973 - q[30] * 2440 - q[31] * 601) <= 15460 + 2 * m
    &&& -15460 - 2 * m <= 4096 * u[30] - (q[16] * 4051 - q[17] * 3290 + q[18] * 995 - q[19] * 3513 + q[28] * 2106 - q[29] * 3973 - q[30] * 2440 - q[31] * 601) <= 15460 + 2 * m
    &&& -15460 - 2 * m <= 4096 * u[31] - (q[16] * 4091 + q[17] * 2751 + q[18] * 3703 + q[19] * 1380 + q[28] * 3857 + q[29] * 1751 + q[30] * 3035 + q[31] * 201) <= 15460 + 2 * m
}

/// Some values midway.
proof fn lemma_midway_from16(q: Seq<i64>, u1: Seq<i64>, u2: Seq<i64>, u3: Seq<i64>, u4: Seq<i64>, m: int)
    requires
        stage1(q, u1),
        stage4(u1, u2),
        stage8(u2, u3),
        stage13(u3, u4),
        forall|p: int| 16 <= p < 32 ==> -m <= #[trigger] q[p] <= m,
    ensures
        -15460 - 2 * m <= 4096 * u4[16] - (q[16] * 201 + q[17] * 3035 + q[18] * 1751 + q[19] * 3857 - q[28] * 1380 - q[29] * 3703 - q[30] * 2751 - q[31] * 4091) <= 15460 + 2 * m,
        -15460 - 2 * m <= 4096 * u4[17] - (q[16] * 601 + q[17] * 2440 + q[18] * 3973 - q[19] * 2106 - q[28] * 3513 + q[29] * 995 - q[30] * 3290 + q[31] * 4051) <= 15460 + 2 * m,
        -15460 - 2 * m <= 4096 * u4[18] - (q[16] * 601 + q[17] * 2440 - q[18] * 3973 + q[19] * 2106 + q[28] * 3513 - q[29] * 995 - q[30] * 3290 + q[31] * 4051) <= 15460 + 2 * m,
        -15460 - 2 * m <= 4096 * u4[19] - (q[16] * 201 + q[17] * 3035 - q[18] * 1751 - q[19] * 3857 + q[28] * 1380 + q[29] * 3703 - q[30] * 2751 - q[31] * 4091) <= 15460 + 2 * m,
{
    reveal(stage1);
    reveal(stage4);
    reveal(stage8);
    reveal(stage13);
    assert(-m <= q[16] <= m && -m <= q[17] <= m && -m <= q[18] <= m && -m <= q[19] <= m && -m <= q[20] <= m && -m <= q[21] <= m && -m <= q[22] <= m && -m <= q[23] <= m && -m <= q[24] <= m && -m <= q[25] <= m && -m <= q[26] <= m && -m <= q[27] <= m && -m <= q[28] <= m && -m <= q[29] <= m && -m <= q[30] <= m && -m <= q[31] <= m);
}

/// Some values midway.
proof fn lemma_midway_from20(q: Seq<i64>, u1: Seq<i64>, u2: Seq<i64>, u3: Seq<i64>, u4: Seq<i64>, m: int)
    requires
        stage1(q, u1),
        stage4(u1, u2),
        stage8(u2, u3),
        stage13(u3, u4),
        forall|p: int| 16 <= p < 32 ==> -m <= #[trigger] q[p] <= m,
    ensures
        -15460 - 2 * m <= 4096 * u4[20] - (-995 * q[20] - q[21] * 3513 + q[22] * 2440 + q[23] * 4052 - q[24] * 601 - q[25] * 3290 + q[26] * 2106 + q[27] * 3973) <= 15460 + 2 * m,
        -15460 - 2 * m <= 4096 * u4[21] - (-2751 * q[20] - q[21] * 201 + q[22] * 3857 - q[23] * 3703 - q[24] * 1752 - q[25] * 1380 + q[26] * 4091 - q[27] * 3035) <= 15460 + 2 * m,
        -15460 - 2 * m <= 4096 * u4[22] - (q[20] * 2751 + q[21] * 201 + q[22] * 3857 - q[23] * 3703 - q[24] * 1752 - q[25] * 1380 - q[26] * 4091 + q[27] * 3035) <= 15460 + 2 * m,
        -15460 - 2 * m <= 4096 * u4[23] - (q[20] * 995 + q[21] * 3513 + q[22] * 2440 + q[23] * 4052 - q[24] * 601 - q[25] * 3290 - q[26] * 2106 - q[27] * 3973) <= 15460 + 2 * m,
{
    reveal(stage1);
    reveal(stage4);
    reveal(stage8);
    reveal(stage13);
    assert(-m <= q[16] <= m && -m <= q[17] <= m && -m <= q[18] <= m && -m <= q[19] <= m && -m <= q[20] <= m && -m <= q[21] <= m && -m <= q[22] <= m && -m <= q[23] <= m && -m <= q[24] <= m && -m <= q[25] <= m && -m <= q[26] <= m && -m <= q[27] <= m && -m <= q[28] <= m && -m <= q[29] <= m && -m <= q[30] <= m && -m <= q[31] <= m);
}

/// Some values midway.
proof fn lemma_midway_from24(q: Seq<i64>, u1: Seq<i64>, u2: Seq<i64>, u3: Seq<i64>, u4: Seq<i64>, m: int)
    requires
        stage1(q, u1),
        stage4(u1, u2),
        stage8(u2, u3),
        stage13(u3, u4),
        forall|p: int| 16 <= p < 32 ==> -m <= #[trigger] q[p] <= m,
    ensures
        -15460 - 2 * m <= 4096 * u4[24] - (q[20] * 3973 + q[21] * 2106 + q[22] * 3290 + q[23] * 601 + q[24] * 4052 + q[25] * 2440 + q[26] * 3513 + q[27] * 995) <= 15460 + 2 * m,
        -15460 - 2 * m <= 4096 * u4[25] - (q[20] * 3035 - q[21] * 4091 - q[22] * 1380 - q[23] * 1752 + q[24] * 3703 - q[25] * 3857 - q[26] * 201 - q[27] * 2751) <= 15460 + 2 * m,
        -15460 - 2 * m <= 4096 * u4[26] - (-3035 * q[20] + q[21] * 4091 - q[22] * 1380 - q[23] * 1752 + q[24] * 3703 - q[25] * 3857 + q[26] * 201 + q[27] * 2751) <= 15460 + 2 * m,
        -15460 - 2 * m <= 4096 * u4[27] - (-3973 * q[20] - q[21] * 2106 + q[22] * 3290 + q[23] * 601 + q[24] * 4052 + q[25] * 2440 - q[26] * 3513 - q[27] * 995) <= 15460 + 2 * m,
{
    reveal(stage1);
    reveal(stage4);
    reveal(stage8);
    reveal(stage13);
    assert(-m <= q[16] <= m && -m <= q[17] <= m && -m <= q[18] <= m && -m <= q[19] <= m && -m <= q[20] <= m && -m <= q[21] <= m && -m <= q[22] <= m && -m <= q[23] <= m && -m <= q[24] <= m && -m <= q[25] <= m && -m <= q[26] <= m && -m <= q[27] <= m && -m <= q[28] <= m && -m <= q[29] <= m && -m <= q[30] <= m && -m <= q[31] <= m);
}

/// Some values midway.
proof fn lemma_midway_from28(q: Seq<i64>, u1: Seq<i64>, u2: Seq<i64>, u3: Seq<i64>, u4: Seq<i64>, m: int)
    requires
        stage1(q, u1),
        stage4(u1, u2),
        stage8(u2, u3),
        stage13(u3, u4),
        forall|p: int| 16 <= p < 32 ==> -m <= #[trigger] q[p] <= m,
    ensures
        -15460 - 2 * m <= 4096 * u4[28] - (q[16] * 4091 + q[17] * 2751 - q[18] * 3703 - q[19] * 1380 - q[28] * 3857 - q[29] * 1751 + q[30] * 3035 + q[31] * 201) <= 15460 + 2 * m,
        -15460 - 2 * m <= 4096 * u4[29] - (q[16] * 4051 - q[17] * 3290 - q[18] * 995 + q[19] * 3513 - q[28] * 2106 + q[29] * 3973 - q[30] * 2440 - q[31] * 601) <= 15460 + 2 * m,
        -15460 - 2 * m <= 4096 * u4[30] - (q[16] * 4051 - q[17] * 3290 + q[18] * 995 - q[19] * 3513 + q[28] * 2106 - q[29] * 3973 - q[30] * 2440 - q[31] * 601) <= 15460 + 2 * m,
        -15460 - 2 * m <= 4096 * u4[31] - (q[16] * 4091 + q[17] * 2751 + q[18] * 3703 + q[19] * 1380 + q[28] * 3857 + q[29] * 1751 + q[30] * 3035 + q[31] * 201) <= 15460 + 2 * m,
{
    reveal(stage1);
    reveal(stage4);
    reveal(stage8);
    reveal(stage13);
    assert(-m <= q[16] <= m && -m <= q[17] <= m && -m <= q[18] <= m && -m <= q[19] <= m && -m <= q[20] <= m && -m <= q[21] <= m && -m <= q[22] <= m && -m <= q[23] <= m && -m <= q[24] <= m && -m <= q[25] <= m && -m <= q[26] <= m && -m <= q[27] <= m && -m <= q[28] <= m && -m <= q[29] <= m && -m <= q[30] <= m && -m <= q[31] <= m);
}

/// Some outputs.
proof fn lemma_outputs_from0(q: Seq<i64>, u4: Seq<i64>, u5: Seq<i64>, u6: Seq<i64>, u7: Seq<i64>, m: int)
    requires
        midway(q, u4, m),
        stage18(u4, u5),
        stage22(u5, u6),
        stage25(u6, u7),
        forall|p: int| 16 <= p < 32 ==> -m <= #[trigger] q[p] <= m,
    ensures
        -49152 - 16 * m <= 4096 * u7[31] - (q[16] * 4091 + q[17] * 2751 + q[18] * 3703 + q[19] * 1380 + q[20] * 3973 + q[21] * 2106 + q[22] * 3290 + q[23] * 601 + q[24] * 4052 + q[25] * 2440 + q[26] * 3513 + q[27] * 995 + q[28] * 3857 + q[29] * 1751 + q[30] * 3035 + q[31] * 201) <= 49152 + 16 * m,
        -49152 - 16 * m <= 4096 * u7[30] - (q[16] * 4052 - q[17] * 3290 + q[18] * 995 - q[19] * 3513 + q[20] * 3035 - q[21] * 4091 - q[22] * 1380 - q[23] * 1751 + q[24] * 3703 - q[25] * 3857 - q[26] * 201 - q[27] * 2751 + q[28] * 2106 - q[29] * 3973 - q[30] * 2440 - q[31] * 601) <= 49152 + 16 * m,
{
    reveal(midway);
    reveal(stage18);
    reveal(stage22);
    reveal(stage25);
    assert(-m <= q[16] <= m && -m <= q[17] <= m && -m <= q[18] <= m && -m <= q[19] <= m && -m <= q[20] <= m && -m <= q[21] <= m && -m <= q[22] <= m && -m <= q[23] <= m && -m <= q[24] <= m && -m <= q[25] <= m && -m <= q[26] <= m && -m <= q[27] <= m && -m <= q[28] <= m && -m <= q[29] <= m && -m <= q[30] <= m && -m <= q[31] <= m);
}

/// Some outputs.
proof fn lemma_outputs_from2(q: Seq<i64>, u4: Seq<i64>, u5: Seq<i64>, u6: Seq<i64>, u7: Seq<i64>, m: int)
    requires
        midway(q, u4, m),
        stage18(u4, u5),
        stage22(u5, u6),
        stage25(u6, u7),
        forall|p: int| 16 <= p < 32 ==> -m <= #[trigger] q[p] <= m,
    ensures
        -49152 - 16 * m <= 4096 * u7[29] - (q[16] * 3973 - q[17] * 2106 - q[18] * 2440 + q[19] * 4052 + q[20] * 1380 + q[21] * 1751 - q[22] * 4091 + q[23] * 2751 + q[24] * 3035 - q[25] * 201 - q[26] * 3703 + q[27] * 3857 - q[28] * 601 + q[29] * 3290 - q[30] * 3513 + q[31] * 995) <= 49152 + 16 * m,
        -49152 - 16 * m <= 4096 * u7[28] - (q[16] * 3857 + q[17] * 3703 - q[18] * 4091 - q[19] * 2751 - q[20] * 601 + q[21] * 2440 - q[22] * 995 - q[23] * 3513 + q[24] * 2106 + q[25] * 3973 - q[26] * 3290 - q[27] * 4052 - q[28] * 3035 - q[29] * 201 + q[30] * 1751 - q[31] * 1380) <= 49152 + 16 * m,
{
    reveal(midway);
    reveal(stage18);
    reveal(stage22);
    reveal(stage25);
    assert(-m <= q[16] <= m && -m <= q[17] <= m && -m <= q[18] <= m && -m <= q[19] <= m && -m <= q[20] <= m && -m <= q[21] <= m && -m <= q[22] <= m && -m <= q[23] <= m && -m <= q[24] <= m && -m <= q[25] <= m && -m <= q[26] <= m && -m <= q[27] <= m && -m <= q[28] <= m && -m <= q[29] <= m && -m <= q[30] <= m && -m <= q[31] <= m);
}

/// Some outputs.
proof fn lemma_outputs_from4(q: Seq<i64>, u4: Seq<i64>, u5: Seq<i64>, u6: Seq<i64>, u7: Seq<i64>, m: int)
    requires
        midway(q, u4, m),
        stage18(u4, u5),
        stage22(u5, u6),
        stage25(u6, u7),
        forall|p: int| 16 <= p < 32 ==> -m <= #[trigger] q[p] <= m,
    ensures
        -49152 - 16 * m <= 4096 * u7[27] - (q[16] * 3703 + q[17] * 1380 - q[18] * 2751 + q[19] * 201 - q[20] * 2440 - q[21] * 4052 + q[22] * 3513 + q[23] * 3973 + q[24] * 995 - q[25] * 2106 + q[26] * 601 + q[27] * 3290 - q[28] * 4091 - q[29] * 3035 + q[30] * 3857 + q[31] * 1751) <= 49152 + 16 * m,
        -49152 - 16 * m <= 4096 * u7[26] - (q[16] * 3513 - q[17] * 3973 + q[18] * 601 + q[19] * 2440 - q[20] * 3703 + q[21] * 1380 + q[22] * 3035 - q[23] * 4091 - q[24] * 201 - q[25] * 2751 + q[26] * 3857 - q[27] * 1751 - q[28] * 3290 + q[29] * 4052 - q[30] * 995 - q[31] * 2106) <= 49152 + 16 * m,
{
    reveal(midway);
    reveal(stage18);
    reveal(stage22);
    reveal(stage25);
    assert(-m <= q[16] <= m && -m <= q[17] <= m && -m <= q[18] <= m && -m <= q[19] <= m && -m <= q[20] <= m && -m <= q[21] <= m && -m <= q[22] <= m && -m <= q[23] <= m && -m <= q[24] <= m && -m <= q[25] <= m && -m <= q[26] <= m && -m <= q[27] <= m && -m <= q[28] <= m && -m <= q[29] <= m && -m <= q[30] <= m && -m <= q[31] <= m);
}

/// Some outputs.
proof fn lemma_outputs_from6(q: Seq<i64>, u4: Seq<i64>, u5: Seq<i64>, u6: Seq<i64>, u7: Seq<i64>, m: int)
    requires
        midway(q, u4, m),
        stage18(u4, u5),
        stage22(u5, u6),
        stage25(u6, u7),
        forall|p: int| 16 <= p < 32 ==> -m <= #[trigger] q[p] <= m,
    ensures
        -49152 - 16 * m <= 4096 * u7[25] - (q[16] * 3290 - q[17] * 601 + q[18] * 3513 - q[19] * 3973 - q[20] * 4091 + q[21] * 2751 - q[22] * 1751 + q[23] * 3857 - q[24] * 1380 + q[25] * 3703 + q[26] * 3035 - q[27] * 201 - q[28] * 995 - q[29] * 2106 - q[30] * 4052 + q[31] * 2440) <= 49152 + 16 * m,
        -49152 - 16 * m <= 4096 * u7[24] - (q[16] * 3035 + q[17] * 4091 + q[18] * 3857 + q[19] * 3703 - q[20] * 3513 - q[21] * 3973 - q[22] * 4052 - q[23] * 3290 - q[24] * 2440 + q[25] * 601 - q[26] * 995 + q[27] * 2106 + q[28] * 1751 - q[29] * 1380 + q[30] * 201 - q[31] * 2751) <= 49152 + 16 * m,
{
    reveal(midway);
    reveal(stage18);
    reveal(stage22);
    reveal(stage25);
    assert(-m <= q[16] <= m && -m <= q[17] <= m && -m <= q[18] <= m && -m <= q[19] <= m && -m <= q[20] <= m && -m <= q[21] <= m && -m <= q[22] <= m && -m <= q[23] <= m && -m <= q[24] <= m && -m <= q[25] <= m && -m <= q[26] <= m && -m <= q[27] <= m && -m <= q[28] <= m && -m <= q[29] <= m && -m <= q[30] <= m && -m <= q[31] <= m);
}

/// Some outputs.
proof fn lemma_outputs_from8(q: Seq<i64>, u4: Seq<i64>, u5: Seq<i64>, u6: Seq<i64>, u7: Seq<i64>, m: int)
    requires
        midway(q, u4, m),
        stage18(u4, u5),
        stage22(u5, u6),
        stage25(u6, u7),
        forall|p: int| 16 <= p < 32 ==> -m <= #[trigger] q[p] <= m,
    ensures
        -49152 - 16 * m <= 4096 * u7[23] - (q[16] * 2751 - q[17] * 201 + q[18] * 1380 - q[19] * 1751 - q[20] * 2106 + q[21] * 995 - q[22] * 601 + q[23] * 2440 - q[24] * 3290 - q[25] * 4052 - q[26] * 3973 - q[27] * 3513 + q[28] * 3703 + q[29] * 3857 + q[30] * 4091 + q[31] * 3035) <= 49152 + 16 * m,
        -49152 - 16 * m <= 4096 * u7[22] - (q[16] * 2440 - q[17] * 4052 - q[18] * 2106 - q[19] * 995 - q[20] * 201 + q[21] * 3035 + q[22] * 3703 - q[23] * 1380 - q[24] * 3857 + q[25] * 1751 - q[26] * 2751 + q[27] * 4091 + q[28] * 3973 - q[29] * 3513 + q[30] * 601 - q[31] * 3290) <= 49152 + 16 * m,
{
    reveal(midway);
    reveal(stage18);
    reveal(stage22);
    reveal(stage25);
    assert(-m <= q[16] <= m && -m <= q[17] <= m && -m <= q[18] <= m && -m <= q[19] <= m && -m <= q[20] <= m && -m <= q[21] <= m && -m <= q[22] <= m && -m <= q[23] <= m && -m <= q[24] <= m && -m <= q[25] <= m && -m <= q[26] <= m && -m <= q[27] <= m && -m <= q[28] <= m && -m <= q[29] <= m && -m <= q[30] <= m && -m <= q[31] <= m);
}

/// Some outputs.
proof fn lemma_outputs_from10(q: Seq<i64>, u4: Seq<i64>, u5: Seq<i64>, u6: Seq<i64>, u7: Seq<i64>, m: int)
    requires
        midway(q, u4, m),
        stage18(u4, u5),
        stage22(u5, u6),
        stage25(u6, u7),
        forall|p: int| 16 <= p < 32 ==> -m <= #[trigger] q[p] <= m,
    ensures
        -49152 - 16 * m <= 4096 * u7[21] - (q[16] * 2106 + q[17] * 995 - q[18] * 4052 + q[19] * 3290 + q[20] * 1751 - q[21] * 3857 + q[22] * 2751 + q[23] * 201 - q[24] * 4091 + q[25] * 3035 + q[26] * 1380 - q[27] * 3703 + q[28] * 2440 + q[29] * 601 - q[30] * 3973 + q[31] * 3513) <= 49152 + 16 * m,
        -49152 - 16 * m <= 4096 * u7[20] - (q[16] * 1751 + q[17] * 3857 - q[18] * 3035 - q[19] * 4091 + q[20] * 3290 + q[21] * 601 - q[22] * 2106 + q[23] * 995 - q[24] * 3973 - q[25] * 3513 + q[26] * 4052 + q[27] * 2440 - q[28] * 201 + q[29] * 2751 - q[30] * 1380 - q[31] * 3703) <= 49152 + 16 * m,
{
    reveal(midway);
    reveal(stage18);
    reveal(stage22);
    reveal(stage25);
    assert(-m <= q[16] <= m && -m <= q[17] <= m && -m <= q[18] <= m && -m <= q[19] <= m && -m <= q[20] <= m && -m <= q[21] <= m && -m <= q[22] <= m && -m <= q[23] <= m && -m <= q[24] <= m && -m <= q[25] <= m && -m <= q[26] <= m && -m <= q[27] <= m && -m <= q[28] <= m && -m <= q[29] <= m && -m <= q[30] <= m && -m <= q[31] <= m);
}

/// Some outputs.
proof fn lemma_outputs_from12(q: Seq<i64>, u4: Seq<i64>, u5: Seq<i64>, u6: Seq<i64>, u7: Seq<i64>, m: int)
    requires
        midway(q, u4, m),
        stage18(u4, u5),
        stage22(u5, u6),
        stage25(u6, u7),
        forall|p: int| 16 <= p < 32 ==> -m <= #[trigger] q[p] <= m,
    ensures
        -49152 - 16 * m <= 4096 * u7[19] - (q[16] * 1380 - q[17] * 1751 + q[18] * 201 + q[19] * 3035 + q[20] * 4052 + q[21] * 3290 - q[22] * 3973 - q[23] * 2106 - q[24] * 3513 - q[25] * 995 + q[26] * 2440 - q[27] * 601 - q[28] * 2751 - q[29] * 4091 + q[30] * 3703 + q[31] * 3857) <= 49152 + 16 * m,
        -49152 - 16 * m <= 4096 * u7[18] - (q[16] * 995 - q[17] * 3513 + q[18] * 3290 - q[19] * 601 + q[20] * 3857 - q[21] * 3703 - q[22] * 201 + q[23] * 3035 - q[24] * 2751 + q[25] * 4091 - q[26] * 1751 - q[27] * 1380 - q[28] * 4052 + q[29] * 2440 + q[30] * 2106 - q[31] * 3973) <= 49152 + 16 * m,
{
    reveal(midway);
    reveal(stage18);
    reveal(stage22);
    reveal(stage25);
    assert(-m <= q[16] <= m && -m <= q[17] <= m && -m <= q[18] <= m && -m <= q[19] <= m && -m <= q[20] <= m && -m <= q[21] <= m && -m <= q[22] <= m && -m <= q[23] <= m && -m <= q[24] <= m && -m <= q[25] <= m && -m <= q[26] <= m && -m <= q[27] <= m && -m <= q[28] <= m && -m <= q[29] <= m && -m <= q[30] <= m && -m <= q[31] <= m);
}

/// Some outputs.
proof fn lemma_outputs_from14(q: Seq<i64>, u4: Seq<i64>, u5: Seq<i64>, u6: Seq<i64>, u7: Seq<i64>, m: int)
    requires
        midway(q, u4, m),
        stage18(u4, u5),
        stage22(u5, u6),
        stage25(u6, u7),
        forall|p: int| 16 <= p < 32 ==> -m <= #[trigger] q[p] <= m,
    ensures
        -49152 - 16 * m <= 4096 * u7[17] - (q[16] * 601 + q[17] * 2440 + q[18] * 3973 - q[19] * 2106 + q[20] * 2751 + q[21] * 201 + q[22] * 3857 - q[23] * 3703 - q[24] * 1751 - q[25] * 1380 - q[26] * 4091 + q[27] * 3035 - q[28] * 3513 + q[29] * 995 - q[30] * 3290 + q[31] * 4052) <= 49152 + 16 * m,
        -49152 - 16 * m <= 4096 * u7[16] - (q[16] * 201 + q[17] * 3035 + q[18] * 1751 + q[19] * 3857 + q[20] * 995 + q[21] * 3513 + q[22] * 2440 + q[23] * 4052 - q[24] * 601 - q[25] * 3290 - q[26] * 2106 - q[27] * 3973 - q[28] * 1380 - q[29] * 3703 - q[30] * 2751 - q[31] * 4091) <= 49152 + 16 * m,
{
    reveal(midway);
    reveal(stage18);
    reveal(stage22);
    reveal(stage25);
    assert(-m <= q[16] <= m && -m <= q[17] <= m && -m <= q[18] <= m && -m <= q[19] <= m && -m <= q[20] <= m && -m <= q[21] <= m && -m <= q[22] <= m && -m <= q[23] <= m && -m <= q[24] <= m && -m <= q[25] <= m && -m <= q[26] <= m && -m <= q[27] <= m && -m <= q[28] <= m && -m <= q[29] <= m && -m <= q[30] <= m && -m <= q[31] <= m);
}

/// All the values midway.
proof fn lemma_midway(q: Seq<i64>, u1: Seq<i64>, u2: Seq<i64>, u3: Seq<i64>, u4: Seq<i64>, m: int)
    requires
        stage1(q, u1),
        stage4(u1, u2),
        stage8(u2, u3),
        stage13(u3, u4),
        forall|p: int| 16 <= p < 32 ==> -m <= #[trigger] q[p] <= m,
    ensures
        midway(q, u4, m),
{
    reveal(midway);
    lemma_midway_from16(q, u1, u2, u3, u4, m);
    lemma_midway_from20(q, u1, u2, u3, u4, m);
    lemma_midway_from24(q, u1, u2, u3, u4, m);
    lemma_midway_from28(q, u1, u2, u3, u4, m);
}

/// What the values are in the end, in terms of the input.
#[verifier::opaque]
spec fn outcome(q: Seq<i64>, u: Seq<i64>, m: int) -> bool {
    &&& -49152 - 16 * m <= 4096 * u[31] - (q[16] * 4091 + q[17] * 2751 + q[18] * 3703 + q[19] * 1380 + q[20] * 3973 + q[21] * 2106 + q[22] * 3290 + q[23] * 601 + q[24] * 4052 + q[25] * 2440 + q[26] * 3513 + q[27] * 995 + q[28] * 3857 + q[29] * 1751 + q[30] * 3035 + q[31] * 201) <= 49152 + 16 * m
    &&& -49152 - 16 * m <= 4096 * u[30] - (q[16] * 4052 - q[17] * 3290 + q[18] * 995 - q[19] * 3513 + q[20] * 3035 - q[21] * 4091 - q[22] * 1380 - q[23] * 1751 + q[24] * 3703 - q[25] * 3857 - q[26] * 201 - q[27] * 2751 + q[28] * 2106 - q[29] * 3973 - q[30] * 2440 - q[31] * 601) <= 49152 + 16 * m
    &&& -49152 - 16 * m <= 4096 * u[29] - (q[16] * 3973 - q[17] * 2106 - q[18] * 2440 + q[19] * 4052 + q[20] * 1380 + q[21] * 1751 - q[22] * 4091 + q[23] * 2751 + q[24] * 3035 - q[25] * 201 - q[26] * 3703 + q[27] * 3857 - q[28] * 601 + q[29] * 3290 - q[30] * 3513 + q[31] * 995) <= 49152 + 16 * m
    &&& -49152 - 16 * m <= 4096 * u[28] - (q[16] * 3857 + q[17] * 3703 - q[18] * 4091 - q[19] * 2751 - q[20] * 601 + q[21] * 2440 - q[22] * 995 - q[23] * 3513 + q[24] * 2106 + q[25] * 3973 - q[26] * 3290 - q[27] * 4052 - q[28] * 3035 - q[29] * 201 + q[30] * 1751 - q[31] * 1380) <= 49152 + 16 * m
    &&& -49152 - 16 * m <= 4096 * u[27] - (q[16] * 3703 + q[17] * 1380 - q[18] * 2751 + q[19] * 201 - q[20] * 2440 - q[21] * 4052 + q[22] * 3513 + q[23] * 3973 + q[24] * 995 - q[25] * 2106 + q[26] * 601 + q[27] * 3290 - q[28] * 4091 - q[29] * 3035 + q[30] * 3857 + q[31] * 1751) <= 49152 + 16 * m
    &&& -49152 - 16 * m <= 4096 * u[26] - (q[16] * 3513 - q[17] * 3973 + q[18] * 601 + q[19] * 2440 - q[20] * 3703 + q[21] * 1380 + q[22] * 3035 - q[23] * 4091 - q[24] * 201 - q[25] * 2751 + q[26] * 3857 - q[27] * 1751 - q[28] * 3290 + q[29] * 4052 - q[30] * 995 - q[31] * 2106) <= 49152 + 16 * m
    &&& -49152 - 16 * m <= 4096 * u[25] - (q[16] * 3290 - q[17] * 601 + q[18] * 3513 - q[19] * 3973 - q[20] * 4091 + q[21] * 2751 - q[22] * 1751 + q[23] * 3857 - q[24] * 1380 + q[25] * 3703 + q[26] * 3035 - q[27] * 201 - q[28] * 995 - q[29] * 2106 - q[30] * 4052 + q[31] * 2440) <= 49152 + 16 * m
    &&& -49152 - 16 * m <= 4096 * u[24] - (q[16] * 3035 + q[17] * 4091 + q[18] * 3857 + q[19] * 3703 - q[20] * 3513 - q[21] * 3973 - q[22] * 4052 - q[23] * 3290 - q[24] * 2440 + q[25] * 601 - q[26] * 995 + q[27] * 2106 + q[28] * 1751 - q[29] * 1380 + q[30] * 201 - q[31] * 2751) <= 49152 + 16 * m
    &&& -49152 - 16 * m <= 4096 * u[23] - (q[16] * 2751 - q[17] * 201 + q[18] * 1380 - q[19] * 1751 - q[20] * 2106 + q[21] * 995 - q[22] * 601 + q[23] * 2440 - q[24] * 3290 - q[25] * 4052 - q[26] * 3973 - q[27] * 3513 + q[28] * 3703 + q[29] * 3857 + q[30] * 4091 + q[31] * 3035) <= 49152 + 16 * m
    &&& -49152 - 16 * m <= 4096 * u[22] - (q[16] * 2440 - q[17] * 4052 - q[18] * 2106 - q[19] * 995 - q[20] * 201 + q[21] * 3035 + q[22] * 3703 - q[23] * 1380 - q[24] * 3857 + q[25] * 1751 - q[26] * 2751 + q[27] * 4091 + q[28] * 3973 - q[29] * 3513 + q[30] * 601 - q[31] * 3290) <= 49152 + 16 * m
    &&& -49152 - 16 * m <= 4096 * u[21] - (q[16] * 2106 + q[17] * 995 - q[18] * 4052 + q[19] * 3290 + q[20] * 1751 - q[21] * 3857 + q[22] * 2751 + q[23] * 201 - q[24] * 4091 + q[25] * 3035 + q[26] * 1380 - q[27] * 3703 + q[28] * 2440 + q[29] * 601 - q[30] * 3973 + q[31] * 3513) <= 49152 + 16 * m
    &&& -49152 - 16 * m <= 4096 * u[20] - (q[16] * 1751 + q[17] * 3857 - q[18] * 3035 - q[19] * 4091 + q[20] * 3290 + q[21] * 601 - q[22] * 2106 + q[23] * 995 - q[24] * 3973 - q[25] * 3513 + q[26] * 4052 + q[27] * 2440 - q[28] * 201 + q[29] * 2751 - q[30] * 1380 - q[31] * 3703) <= 49152 + 16 * m
    &&& -49152 - 16 * m <= 4096 * u[19] - (q[16] * 1380 - q[17] * 1751 + q[18] * 201 + q[19] * 3035 + q[20] * 4052 + q[21] * 3290 - q[22] * 3973 - q[23] * 2106 - q[24] * 3513 - q[25] * 995 + q[26] * 2440 - q[27] * 601 - q[28] * 2751 - q[29] * 4091 + q[30] * 3703 + q[31] * 3857) <= 49152 + 16 * m
    &&& -49152 - 16 * m <= 4096 * u[18] - (q[16] * 995 - q[17] * 3513 + q[18] * 3290 - q[19] * 601 + q[20] * 3857 - q[21] * 3703 - q[22] * 201 + q[23] * 3035 - q[24] * 2751 + q[25] * 4091 - q[26] * 1751 - q[27] * 1380 - q[28] * 4052 + q[29] * 2440 + q[30] * 2106 - q[31] * 3973) <= 49152 + 16 * m
    &&& -49152 - 16 * m <= 4096 * u[17] - (q[16] * 601 + q[17] * 2440 + q[18] * 3973 - q[19] * 2106 + q[20] * 2751 + q[21] * 201 + q[22] * 3857 - q[23] * 3703 - q[24] * 1751 - q[25] * 1380 - q[26] * 4091 + q[27] * 3035 - q[28] * 3513 + q[29] * 995 - q[30] * 3290 + q[31] * 4052) <= 49152 + 16 * m
    &&& -49152 - 16 * m <= 4096 * u[16] - (q[16] * 201 + q[17] * 3035 + q[18] * 1751 + q[19] * 3857 + q[20] * 995 + q[21] * 3513 + q[22] * 2440 + q[23] * 4052 - q[24] * 601 - q[25] * 3290 - q[26] * 2106 - q[27] * 3973 - q[28] * 1380 - q[29] * 3703 - q[30] * 2751 - q[31] * 4091) <= 49152 + 16 * m
}

/// All the outputs.
proof fn lemma_outputs(q: Seq<i64>, u4: Seq<i64>, u5: Seq<i64>, u6: Seq<i64>, u7: Seq<i64>, m: int)
    requires
        midway(q, u4, m),
        stage18(u4, u5),
        stage22(u5, u6),
        stage25(u6, u7),
        forall|p: int| 16 <= p < 32 ==> -m <= #[trigger] q[p] <= m,
    ensures
        outcome(q, u7, m),
{
    reveal(outcome);
    lemma_outputs_from0(q, u4, u5, u6, u7, m);
    lemma_outputs_from2(q, u4, u5, u6, u7, m);
    lemma_outputs_from4(q, u4, u5, u6, u7, m);
    lemma_outputs_from6(q, u4, u5, u6, u7, m);
    lemma_outputs_from8(q, u4, u5, u6, u7, m);
    lemma_outputs_from10(q, u4, u5, u6, u7, m);
    lemma_outputs_from12(q, u4, u5, u6, u7, m);
    lemma_outputs_from14(q, u4, u5, u6, u7, m);
}

/// All the stages, from the first to the last.
proof fn lemma_stages(q: Seq<i64>, r: int, m: int)
    requires
        q.len() == 64,
        1 <= r,
        0 <= m <= 0x10_0000_0000,
        40 * m + 40 < p2(r - 1),
        forall|p: int| 16 <= p < 32 ==> -m <= #[trigger] q[p] <= m,
    ensures
        ({
            let u = partial_network(q, Network::Dct, 5, 27, r);
            &&& u.len() == 64
            &&& outcome(q, u, m)
            &&& forall|p: int| 16 <= p < 32 ==> -0x1000_0000_0000_0000 <= #[trigger] u[p] <= 0x1000_0000_0000_0000
        }),
{
    let net = Network::Dct;
    lemma_p2_values();
    reveal_with_fuel(partial_network, 2);
    let x0 = partial_network(q, net, 5, 1, r);
    lemma_upper_waits(q, 5, 0, 1, r);
    lemma_stage1(x0, r, m);
    let u1 = partial_network(q, net, 5, 2, r);
    assert(u1 == partial_stage(x0, net, 1, 8, r));
    assert(stage1(q, u1)) by {
        reveal(stage1);
        assert(x0[16] == q[16] && x0[17] == q[17] && x0[18] == q[18] && x0[19] == q[19] && x0[20] == q[20] && x0[21] == q[21] && x0[22] == q[22] && x0[23] == q[23] && x0[24] == q[24] && x0[25] == q[25] && x0[26] == q[26] && x0[27] == q[27] && x0[28] == q[28] && x0[29] == q[29] && x0[30] == q[30] && x0[31] == q[31]);
    }
    let x1 = partial_network(q, net, 5, 4, r);
    lemma_upper_waits(q, 5, 2, 4, r);
    lemma_stage4(x1, r, 2 * m + 1);
    let u2 = partial_network(q, net, 5, 5, r);
    assert(u2 == partial_stage(x1, net, 4, 8, r));
    assert(stage4(u1, u2)) by {
        reveal(stage4);
        assert(x1[16] == u1[16] && x1[17] == u1[17] && x1[18] == u1[18] && x1[19] == u1[19] && x1[20] == u1[20] && x1[21] == u1[21] && x1[22] == u1[22] && x1[23] == u1[23] && x1[24] == u1[24] && x1[25] == u1[25] && x1[26] == u1[26] && x1[27] == u1[27] && x1[28] == u1[28] && x1[29] == u1[29] && x1[30] == u1[30] && x1[31] == u1[31]);
    }
    let x2 = partial_network(q, net, 5, 8, r);
    lemma_upper_waits(q, 5, 5, 8, r);
    lemma_stage8(x2, r, 4 * m + 2);
    let u3 = partial_network(q, net, 5, 9, r);
    assert(u3 == partial_stage(x2, net, 8, 4, r));
    assert(stage8(u2, u3)) by {
        reveal(stage8);
        assert(x2[16] == u2[16] && x2[17] == u2[17] && x2[18] == u2[18] && x2[19] == u2[19] && x2[20] == u2[20] && x2[21] == u2[21] && x2[22] == u2[22] && x2[23] == u2[23] && x2[24] == u2[24] && x2[25] == u2[25] && x2[26] == u2[26] && x2[27] == u2[27] && x2[28] == u2[28] && x2[29] == u2[29] && x2[30] == u2[30] && x2[31] == u2[31]);
    }
    let x3 = partial_network(q, net, 5, 13, r);
    lemma_upper_waits(q, 5, 9, 13, r);
    lemma_stage13(x3, r, 6 * m + 4);
    let u4 = partial_network(q, net, 5, 14, r);
    assert(u4 == partial_stage(x3, net, 13, 8, r));
    assert(stage13(u3, u4)) by {
        reveal(stage13);
        assert(x3[16] == u3[16] && x3[17] == u3[17] && x3[18] == u3[18] && x3[19] == u3[19] && x3[20] == u3[20] && x3[21] == u3[21] && x3[22] == u3[22] && x3[23] == u3[23] && x3[24] == u3[24] && x3[25] == u3[25] && x3[26] == u3[26] && x3[27] == u3[27] && x3[28] == u3[28] && x3[29] == u3[29] && x3[30] == u3[30] && x3[31] == u3[31]);
    }
    let x4 = partial_network(q, net, 5, 18, r);
    lemma_upper_waits(q, 5, 14, 18, r);
    lemma_stage18(x4, r, 12 * m + 8);
    let u5 = partial_network(q, net, 5, 19, r);
    assert(u5 == partial_stage(x4, net, 18, 4, r));
    assert(stage18(u4, u5)) by {
        reveal(stage18);
        assert(x4[16] == u4[16] && x4[17] == u4[17] && x4[18] == u4[18] && x4[19] == u4[19] && x4[20] == u4[20] && x4[21] == u4[21] && x4[22] == u4[22] && x4[23] == u4[23] && x4[24] == u4[24] && x4[25] == u4[25] && x4[26] == u4[26] && x4[27] == u4[27] && x4[28] == u4[28] && x4[29] == u4[29] && x4[30] == u4[30] && x4[31] == u4[31]);
    }
    let x5 = partial_network(q, net, 5, 22, r);
    lemma_upper_waits(q, 5, 19, 22, r);
    lemma_stage22(x5, r, 18 * m + 13);
    let u6 = partial_network(q, net, 5, 23, r);
    assert(u6 == partial_stage(x5, net, 22, 8, r));
    assert(stage22(u5, u6)) by {
        reveal(stage22);
        assert(x5[16] == u5[16] && x5[17] == u5[17] && x5[18] == u5[18] && x5[19] == u5[19] && x5[20] == u5[20] && x5[21] == u5[21] && x5[22] == u5[22] && x5[23] == u5[23] && x5[24] == u5[24] && x5[25] == u5[25] && x5[26] == u5[26] && x5[27] == u5[27] && x5[28] == u5[28] && x5[29] == u5[29] && x5[30] == u5[30] && x5[31] == u5[31]);
    }
    let x6 = partial_network(q, net, 5, 25, r);
    lemma_upper_waits(q, 5, 23, 25, r);
    lemma_stage25(x6, r, 36 * m + 26);
    let u7 = partial_network(q, net, 5, 26, r);
    assert(u7 == partial_stage(x6, net, 25, 4, r));
    assert(stage25(u6, u7)) by {
        reveal(stage25);
        assert(x6[16] == u6[16] && x6[17] == u6[17] && x6[18] == u6[18] && x6[19] == u6[19] && x6[20] == u6[20] && x6[21] == u6[21] && x6[22] == u6[22] && x6[23] == u6[23] && x6[24] == u6[24] && x6[25] == u6[25] && x6[26] == u6[26] && x6[27] == u6[27] && x6[28] == u6[28] && x6[29] == u6[29] && x6[30] == u6[30] && x6[31] == u6[31]);
    }
    lemma_upper_waits(q, 5, 26, 27, r);
    lemma_midway(q, u1, u2, u3, u4, m);
    lemma_outputs(q, u4, u5, u6, u7, m);
}

/// The sum of the values at odd places, each times the cosine of its wave at place `k`.
pub open spec fn odd_cosines32(t: Seq<i64>, k: int) -> int {
    t[1] * cos(2 * (2 * k + 1)) + t[3] * cos(6 * (2 * k + 1)) + t[5] * cos(10 * (2 * k + 1)) + t[7] * cos(14 * (2 * k + 1)) + t[9] * cos(18 * (2 * k + 1)) + t[11] * cos(22 * (2 * k + 1)) + t[13] * cos(26 * (2 * k + 1)) + t[15] * cos(30 * (2 * k + 1)) + t[17] * cos(34 * (2 * k + 1)) + t[19] * cos(38 * (2 * k + 1)) + t[21] * cos(42 * (2 * k + 1)) + t[23] * cos(46 * (2 * k + 1)) + t[25] * cos(50 * (2 * k + 1)) + t[27] * cos(54 * (2 * k + 1)) + t[29] * cos(58 * (2 * k + 1)) + t[31] * cos(62 * (2 * k + 1))
}

/// The sum with the waves put in.
proof fn lemma_odd_cosines32(t: Seq<i64>, k: int, c1: int, c3: int, c5: int, c7: int, c9: int, c11: int, c13: int, c15: int, c17: int, c19: int, c21: int, c23: int, c25: int, c27: int, c29: int, c31: int)
    requires
        cos(2 * (2 * k + 1)) == c1,
        cos(6 * (2 * k + 1)) == c3,
        cos(10 * (2 * k + 1)) == c5,
        cos(14 * (2 * k + 1)) == c7,
        cos(18 * (2 * k + 1)) == c9,
        cos(22 * (2 * k + 1)) == c11,
        cos(26 * (2 * k + 1)) == c13,
        cos(30 * (2 * k + 1)) == c15,
        cos(34 * (2 * k + 1)) == c17,
        cos(38 * (2 * k + 1)) == c19,
        cos(42 * (2 * k + 1)) == c21,
        cos(46 * (2 * k + 1)) == c23,
        cos(50 * (2 * k + 1)) == c25,
        cos(54 * (2 * k + 1)) == c27,
        cos(58 * (2 * k + 1)) == c29,
        cos(62 * (2 * k + 1)) == c31,
    ensures
        odd_cosines32(t, k) == t[1] * c1 + t[3] * c3 + t[5] * c5 + t[7] * c7 + t[9] * c9 + t[11] * c11 + t[13] * c13 + t[15] * c15 + t[17] * c17 + t[19] * c19 + t[21] * c21 + t[23] * c23 + t[25] * c25 + t[27] * c27 + t[29] * c29 + t[31] * c31,
{
}

/// The sums at some places.
proof fn lemma_odd_cosines32_from0(t: Seq<i64>, k: int)
    requires
        0 <= k < 4,
    ensures
        k == 0 ==> odd_cosines32(t, k) == t[1] * 4091 + t[3] * 4052 + t[5] * 3973 + t[7] * 3857 + t[9] * 3703 + t[11] * 3513 + t[13] * 3290 + t[15] * 3035 + t[17] * 2751 + t[19] * 2440 + t[21] * 2106 + t[23] * 1751 + t[25] * 1380 + t[27] * 995 + t[29] * 601 + t[31] * 201,
        k == 1 ==> odd_cosines32(t, k) == t[1] * 4052 + t[3] * 3703 + t[5] * 3035 + t[7] * 2106 + t[9] * 995 - t[11] * 201 - t[13] * 1380 - t[15] * 2440 - t[17] * 3290 - t[19] * 3857 - t[21] * 4091 - t[23] * 3973 - t[25] * 3513 - t[27] * 2751 - t[29] * 1751 - t[31] * 601,
        k == 2 ==> odd_cosines32(t, k) == t[1] * 3973 + t[3] * 3035 + t[5] * 1380 - t[7] * 601 - t[9] * 2440 - t[11] * 3703 - t[13] * 4091 - t[15] * 3513 - t[17] * 2106 - t[19] * 201 + t[21] * 1751 + t[23] * 3290 + t[25] * 4052 + t[27] * 3857 + t[29] * 2751 + t[31] * 995,
        k == 3 ==> odd_cosines32(t, k) == t[1] * 3857 + t[3] * 2106 - t[5] * 601 - t[7] * 3035 - t[9] * 4091 - t[11] * 3290 - t[13] * 995 + t[15] * 1751 + t[17] * 3703 + t[19] * 3973 + t[21] * 2440 - t[23] * 201 - t[25] * 2751 - t[27] * 4052 - t[29] * 3513 - t[31] * 1380,
{
    reveal(cos);
    if k == 0 {
        lemma_odd_cosines32(t, k, 4091, 4052, 3973, 3857, 3703, 3513, 3290, 3035, 2751, 2440, 2106, 1751, 1380, 995, 601, 201);
    } else if k == 1 {
        lemma_odd_cosines32(t, k, 4052, 3703, 3035, 2106, 995, -201, -1380, -2440, -3290, -3857, -4091, -3973, -3513, -2751, -1751, -601);
    } else if k == 2 {
        lemma_odd_cosines32(t, k, 3973, 3035, 1380, -601, -2440, -3703, -4091, -3513, -2106, -201, 1751, 3290, 4052, 3857, 2751, 995);
    } else if k == 3 {
        lemma_odd_cosines32(t, k, 3857, 2106, -601, -3035, -4091, -3290, -995, 1751, 3703, 3973, 2440, -201, -2751, -4052, -3513, -1380);
    }
}

/// The sums at some places.
proof fn lemma_odd_cosines32_from4(t: Seq<i64>, k: int)
    requires
        4 <= k < 8,
    ensures
        k == 4 ==> odd_cosines32(t, k) == t[1] * 3703 + t[3] * 995 - t[5] * 2440 - t[7] * 4091 - t[9] * 2751 + t[11] * 601 + t[13] * 3513 + t[15] * 3857 + t[17] * 1380 - t[19] * 2106 - t[21] * 4052 - t[23] * 3035 + t[25] * 201 + t[27] * 3290 + t[29] * 3973 + t[31] * 1751,
        k == 5 ==> odd_cosines32(t, k) == t[1] * 3513 - t[3] * 201 - t[5] * 3703 - t[7] * 3290 + t[9] * 601 + t[11] * 3857 + t[13] * 3035 - t[15] * 995 - t[17] * 3973 - t[19] * 2751 + t[21] * 1380 + t[23] * 4052 + t[25] * 2440 - t[27] * 1751 - t[29] * 4091 - t[31] * 2106,
        k == 6 ==> odd_cosines32(t, k) == t[1] * 3290 - t[3] * 1380 - t[5] * 4091 - t[7] * 995 + t[9] * 3513 + t[11] * 3035 - t[13] * 1751 - t[15] * 4052 - t[17] * 601 + t[19] * 3703 + t[21] * 2751 - t[23] * 2106 - t[25] * 3973 - t[27] * 201 + t[29] * 3857 + t[31] * 2440,
        k == 7 ==> odd_cosines32(t, k) == t[1] * 3035 - t[3] * 2440 - t[5] * 3513 + t[7] * 1751 + t[9] * 3857 - t[11] * 995 - t[13] * 4052 + t[15] * 201 + t[17] * 4091 + t[19] * 601 - t[21] * 3973 - t[23] * 1380 + t[25] * 3703 + t[27] * 2106 - t[29] * 3290 - t[31] * 2751,
{
    reveal(cos);
    if k == 4 {
        lemma_odd_cosines32(t, k, 3703, 995, -2440, -4091, -2751, 601, 3513, 3857, 1380, -2106, -4052, -3035, 201, 3290, 3973, 1751);
    } else if k == 5 {
        lemma_odd_cosines32(t, k, 3513, -201, -3703, -3290, 601, 3857, 3035, -995, -3973, -2751, 1380, 4052, 2440, -1751, -4091, -2106);
    } else if k == 6 {
        lemma_odd_cosines32(t, k, 3290, -1380, -4091, -995, 3513, 3035, -1751, -4052, -601, 3703, 2751, -2106, -3973, -201, 3857, 2440);
    } else if k == 7 {
        lemma_odd_cosines32(t, k, 3035, -2440, -3513, 1751, 3857, -995, -4052, 201, 4091, 601, -3973, -1380, 3703, 2106, -3290, -2751);
    }
}

/// The sums at some places.
proof fn lemma_odd_cosines32_from8(t: Seq<i64>, k: int)
    requires
        8 <= k < 12,
    ensures
        k == 8 ==> odd_cosines32(t, k) == t[1] * 2751 - t[3] * 3290 - t[5] * 2106 + t[7] * 3703 + t[9] * 1380 - t[11] * 3973 - t[13] * 601 + t[15] * 4091 - t[17] * 201 - t[19] * 4052 + t[21] * 995 + t[23] * 3857 - t[25] * 1751 - t[27] * 3513 + t[29] * 2440 + t[31] * 3035,
        k == 9 ==> odd_cosines32(t, k) == t[1] * 2440 - t[3] * 3857 - t[5] * 201 + t[7] * 3973 - t[9] * 2106 - t[11] * 2751 + t[13] * 3703 + t[15] * 601 - t[17] * 4052 + t[19] * 1751 + t[21] * 3035 - t[23] * 3513 - t[25] * 995 + t[27] * 4091 - t[29] * 1380 - t[31] * 3290,
        k == 10 ==> odd_cosines32(t, k) == t[1] * 2106 - t[3] * 4091 + t[5] * 1751 + t[7] * 2440 - t[9] * 4052 + t[11] * 1380 + t[13] * 2751 - t[15] * 3973 + t[17] * 995 + t[19] * 3035 - t[21] * 3857 + t[23] * 601 + t[25] * 3290 - t[27] * 3703 + t[29] * 201 + t[31] * 3513,
        k == 11 ==> odd_cosines32(t, k) == t[1] * 1751 - t[3] * 3973 + t[5] * 3290 - t[7] * 201 - t[9] * 3035 + t[11] * 4052 - t[13] * 2106 - t[15] * 1380 + t[17] * 3857 - t[19] * 3513 + t[21] * 601 + t[23] * 2751 - t[25] * 4091 + t[27] * 2440 + t[29] * 995 - t[31] * 3703,
{
    reveal(cos);
    if k == 8 {
        lemma_odd_cosines32(t, k, 2751, -3290, -2106, 3703, 1380, -3973, -601, 4091, -201, -4052, 995, 3857, -1751, -3513, 2440, 3035);
    } else if k == 9 {
        lemma_odd_cosines32(t, k, 2440, -3857, -201, 3973, -2106, -2751, 3703, 601, -4052, 1751, 3035, -3513, -995, 4091, -1380, -3290);
    } else if k == 10 {
        lemma_odd_cosines32(t, k, 2106, -4091, 1751, 2440, -4052, 1380, 2751, -3973, 995, 3035, -3857, 601, 3290, -3703, 201, 3513);
    } else if k == 11 {
        lemma_odd_cosines32(t, k, 1751, -3973, 3290, -201, -3035, 4052, -2106, -1380, 3857, -3513, 601, 2751, -4091, 2440, 995, -3703);
    }
}

/// The sums at some places.
proof fn lemma_odd_cosines32_from12(t: Seq<i64>, k: int)
    requires
        12 <= k < 16,
    ensures
        k == 12 ==> odd_cosines32(t, k) == t[1] * 1380 - t[3] * 3513 + t[5] * 4052 - t[7] * 2751 + t[9] * 201 + t[11] * 2440 - t[13] * 3973 + t[15] * 3703 - t[17] * 1751 - t[19] * 995 + t[21] * 3290 - t[23] * 4091 + t[25] * 3035 - t[27] * 601 - t[29] * 2106 + t[31] * 3857,
        k == 13 ==> odd_cosines32(t, k) == t[1] * 995 - t[3] * 2751 + t[5] * 3857 - t[7] * 4052 + t[9] * 3290 - t[11] * 1751 - t[13] * 201 + t[15] * 2106 - t[17] * 3513 + t[19] * 4091 - t[21] * 3703 + t[23] * 2440 - t[25] * 601 - t[27] * 1380 + t[29] * 3035 - t[31] * 3973,
        k == 14 ==> odd_cosines32(t, k) == t[1] * 601 - t[3] * 1751 + t[5] * 2751 - t[7] * 3513 + t[9] * 3973 - t[11] * 4091 + t[13] * 3857 - t[15] * 3290 + t[17] * 2440 - t[19] * 1380 + t[21] * 201 + t[23] * 995 - t[25] * 2106 + t[27] * 3035 - t[29] * 3703 + t[31] * 4052,
        k == 15 ==> odd_cosines32(t, k) == t[1] * 201 - t[3] * 601 + t[5] * 995 - t[7] * 1380 + t[9] * 1751 - t[11] * 2106 + t[13] * 2440 - t[15] * 2751 + t[17] * 3035 - t[19] * 3290 + t[21] * 3513 - t[23] * 3703 + t[25] * 3857 - t[27] * 3973 + t[29] * 4052 - t[31] * 4091,
{
    reveal(cos);
    if k == 12 {
        lemma_odd_cosines32(t, k, 1380, -3513, 4052, -2751, 201, 2440, -3973, 3703, -1751, -995, 3290, -4091, 3035, -601, -2106, 3857);
    } else if k == 13 {
        lemma_odd_cosines32(t, k, 995, -2751, 3857, -4052, 3290, -1751, -201, 2106, -3513, 4091, -3703, 2440, -601, -1380, 3035, -3973);
    } else if k == 14 {
        lemma_odd_cosines32(t, k, 601, -1751, 2751, -3513, 3973, -4091, 3857, -3290, 2440, -1380, 201, 995, -2106, 3035, -3703, 4052);
    } else if k == 15 {
        lemma_odd_cosines32(t, k, 201, -601, 995, -1380, 1751, -2106, 2440, -2751, 3035, -3290, 3513, -3703, 3857, -3973, 4052, -4091);
    }
}

/// Whether the upper half of `q` is the input at odd places in the order of the network.
#[verifier::opaque]
spec fn ordered(t: Seq<i64>, q: Seq<i64>) -> bool {
    &&& q[16] == t[1]
    &&& q[17] == t[17]
    &&& q[18] == t[9]
    &&& q[19] == t[25]
    &&& q[20] == t[5]
    &&& q[21] == t[21]
    &&& q[22] == t[13]
    &&& q[23] == t[29]
    &&& q[24] == t[3]
    &&& q[25] == t[19]
    &&& q[26] == t[11]
    &&& q[27] == t[27]
    &&& q[28] == t[7]
    &&& q[29] == t[23]
    &&& q[30] == t[15]
    &&& q[31] == t[31]
}

/// The values at odd places are put in the order of the network.
proof fn lemma_order(t: Seq<i64>, m: int)
    requires
        t.len() == 64,
        forall|p: int| 0 <= p < 32 ==> -m <= #[trigger] t[p] <= m,
    ensures
        dct_order(t, 5).len() == 64,
        ordered(t, dct_order(t, 5)),
        forall|p: int| 16 <= p < 32 ==> -m <= #[trigger] dct_order(t, 5)[p] <= m,
{
    reveal(ordered);
    lemma_p2_values();
    reveal_with_fuel(reversed, 6);
    assert forall|p: int| 16 <= p < 32 implies -m <= #[trigger] dct_order(t, 5)[p] <= m by {
        lemma_reversed(5, p);
    }
}

/// The sum that an output is.
proof fn lemma_place(t: Seq<i64>, q: Seq<i64>, u: Seq<i64>, m: int, k: int)
    requires
        ordered(t, q),
        outcome(q, u, m),
        0 <= k < 16,
    ensures
        -49152 - 16 * m <= 4096 * u[31 - k] - odd_cosines32(t, k) <= 49152 + 16 * m,
{
    reveal(ordered);
    reveal(outcome);
    if k < 4 {
        lemma_odd_cosines32_from0(t, k);
    } else if k < 8 {
        lemma_odd_cosines32_from4(t, k);
    } else if k < 12 {
        lemma_odd_cosines32_from8(t, k);
    } else {
        lemma_odd_cosines32_from12(t, k);
    }
}

/// What the values at odd places give in the DCT of thirty-two values: the sum of them times
/// the cosines of their waves at the place, to within 12 and 16 parts in 4096 of the greatest.
pub proof fn lemma_odd_part_of_thirty_two(t: Seq<i64>, r: int, m: int, k: int)
    requires
        t.len() == 64,
        1 <= r,
        0 <= m <= 0x10_0000_0000,
        40 * m + 40 < p2(r - 1),
        forall|p: int| 0 <= p < 32 ==> -m <= #[trigger] t[p] <= m,
        0 <= k < 16,
    ensures
        -49152 - 16 * m <= 4096 * odd_part(t, 5, r, k) - odd_cosines32(t, k) <= 49152 + 16 * m,
{
    lemma_p2_values();
    let q = dct_order(t, 5);
    lemma_order(t, m);
    lemma_stages(q, r, m);
    lemma_place(t, q, partial_network(q, Network::Dct, 5, 27, r), m, k);
}

} // verus!
