//! The sum of sixteen sines: what the longest ADST adds up to.
use super::butterfly::{adst_order, adst_output, adst_source, cos, partial_network, partial_stage, sin, through_network, transformed, Kind, Network};
use super::sums::{lemma_rest, lemma_sum, lemma_turn, rounds};
use crate::math::{lemma_p2_values, p2};
use vstd::prelude::*;

verus! {

/// Stage 0 of the ADST of sixteen values, in whole numbers.
#[verifier::opaque]
spec fn stage0(q: Seq<i64>, u1: Seq<i64>) -> bool {
    &&& rounds(u1[1] as int, q[0] * 201 - q[1] * 4091)
    &&& rounds(u1[0] as int, q[0] * 4091 + q[1] * 201)
    &&& rounds(u1[3] as int, q[2] * 995 - q[3] * 3973)
    &&& rounds(u1[2] as int, q[2] * 3973 + q[3] * 995)
    &&& rounds(u1[5] as int, q[4] * 1751 - q[5] * 3703)
    &&& rounds(u1[4] as int, q[4] * 3703 + q[5] * 1751)
    &&& rounds(u1[7] as int, q[6] * 2440 - q[7] * 3290)
    &&& rounds(u1[6] as int, q[6] * 3290 + q[7] * 2440)
    &&& rounds(u1[9] as int, q[8] * 3035 - q[9] * 2751)
    &&& rounds(u1[8] as int, q[8] * 2751 + q[9] * 3035)
    &&& rounds(u1[11] as int, q[10] * 3513 - q[11] * 2106)
    &&& rounds(u1[10] as int, q[10] * 2106 + q[11] * 3513)
    &&& rounds(u1[13] as int, q[12] * 3857 - q[13] * 1380)
    &&& rounds(u1[12] as int, q[12] * 1380 + q[13] * 3857)
    &&& rounds(u1[15] as int, q[14] * 4052 - q[15] * 601)
    &&& rounds(u1[14] as int, q[14] * 601 + q[15] * 4052)
}

/// Stage 0 does as it should.
proof fn lemma_stage0(t: Seq<i64>, r: int, m: int)
    requires
        t.len() == 64,
        forall|p: int| 0 <= p < 16 ==> -m <= #[trigger] t[p] <= m,
        1 <= r,
        0 <= m <= 0x1000_0000_0000,
    ensures
        ({
            let u = partial_stage(t, Network::Adst16, 0, 8, r);
            &&& u.len() == 64
            &&& stage0(t, u)
            &&& forall|p: int| 0 <= p < 16 ==> -3 * m - 1 <= 2 * #[trigger] u[p] <= 3 * m + 1
        }),
{
    let net = Network::Adst16;
    assert(-m <= t[0] <= m && -m <= t[1] <= m && -m <= t[2] <= m && -m <= t[3] <= m && -m <= t[4] <= m && -m <= t[5] <= m && -m <= t[6] <= m && -m <= t[7] <= m && -m <= t[8] <= m && -m <= t[9] <= m && -m <= t[10] <= m && -m <= t[11] <= m && -m <= t[12] <= m && -m <= t[13] <= m && -m <= t[14] <= m && -m <= t[15] <= m);
    reveal(stage0);
    reveal(cos);
    lemma_turn(t, net, 0, 0, r, 201, 4091);
    lemma_turn(t, net, 0, 1, r, 995, 3973);
    lemma_turn(t, net, 0, 2, r, 1751, 3703);
    lemma_turn(t, net, 0, 3, r, 2440, 3290);
    lemma_turn(t, net, 0, 4, r, 3035, 2751);
    lemma_turn(t, net, 0, 5, r, 3513, 2106);
    lemma_turn(t, net, 0, 6, r, 3857, 1380);
    lemma_turn(t, net, 0, 7, r, 4052, 601);
    let u = partial_stage(t, net, 0, 8, r);
    assert(-3 * m - 1 <= 2 * u[0] <= 3 * m + 1 && -3 * m - 1 <= 2 * u[1] <= 3 * m + 1 && -3 * m - 1 <= 2 * u[2] <= 3 * m + 1 && -3 * m - 1 <= 2 * u[3] <= 3 * m + 1 && -3 * m - 1 <= 2 * u[4] <= 3 * m + 1 && -3 * m - 1 <= 2 * u[5] <= 3 * m + 1 && -3 * m - 1 <= 2 * u[6] <= 3 * m + 1 && -3 * m - 1 <= 2 * u[7] <= 3 * m + 1 && -3 * m - 1 <= 2 * u[8] <= 3 * m + 1 && -3 * m - 1 <= 2 * u[9] <= 3 * m + 1 && -3 * m - 1 <= 2 * u[10] <= 3 * m + 1 && -3 * m - 1 <= 2 * u[11] <= 3 * m + 1 && -3 * m - 1 <= 2 * u[12] <= 3 * m + 1 && -3 * m - 1 <= 2 * u[13] <= 3 * m + 1 && -3 * m - 1 <= 2 * u[14] <= 3 * m + 1 && -3 * m - 1 <= 2 * u[15] <= 3 * m + 1);
}

/// Stage 1 of the ADST of sixteen values, in whole numbers.
#[verifier::opaque]
spec fn stage1(u1: Seq<i64>, u2: Seq<i64>) -> bool {
    &&& u2[0] == u1[0] + u1[8]
    &&& u2[8] == u1[0] - u1[8]
    &&& u2[1] == u1[1] + u1[9]
    &&& u2[9] == u1[1] - u1[9]
    &&& u2[2] == u1[2] + u1[10]
    &&& u2[10] == u1[2] - u1[10]
    &&& u2[3] == u1[3] + u1[11]
    &&& u2[11] == u1[3] - u1[11]
    &&& u2[4] == u1[4] + u1[12]
    &&& u2[12] == u1[4] - u1[12]
    &&& u2[5] == u1[5] + u1[13]
    &&& u2[13] == u1[5] - u1[13]
    &&& u2[6] == u1[6] + u1[14]
    &&& u2[14] == u1[6] - u1[14]
    &&& u2[7] == u1[7] + u1[15]
    &&& u2[15] == u1[7] - u1[15]
}

/// Stage 1 does as it should.
proof fn lemma_stage1(t: Seq<i64>, r: int, m: int)
    requires
        t.len() == 64,
        forall|p: int| 0 <= p < 16 ==> -m <= #[trigger] t[p] <= m,
        1 <= r,
        0 <= m <= 0x1000_0000_0000,
        2 * m < p2(r - 1),
    ensures
        ({
            let u = partial_stage(t, Network::Adst16, 1, 8, r);
            &&& u.len() == 64
            &&& stage1(t, u)
            &&& forall|p: int| 0 <= p < 16 ==> -2 * m <= #[trigger] u[p] <= 2 * m
        }),
{
    let net = Network::Adst16;
    assert(-m <= t[0] <= m && -m <= t[1] <= m && -m <= t[2] <= m && -m <= t[3] <= m && -m <= t[4] <= m && -m <= t[5] <= m && -m <= t[6] <= m && -m <= t[7] <= m && -m <= t[8] <= m && -m <= t[9] <= m && -m <= t[10] <= m && -m <= t[11] <= m && -m <= t[12] <= m && -m <= t[13] <= m && -m <= t[14] <= m && -m <= t[15] <= m);
    reveal(stage1);
    lemma_sum(t, net, 1, 0, r);
    lemma_sum(t, net, 1, 1, r);
    lemma_sum(t, net, 1, 2, r);
    lemma_sum(t, net, 1, 3, r);
    lemma_sum(t, net, 1, 4, r);
    lemma_sum(t, net, 1, 5, r);
    lemma_sum(t, net, 1, 6, r);
    lemma_sum(t, net, 1, 7, r);
    let u = partial_stage(t, net, 1, 8, r);
    assert(-2 * m <= u[0] <= 2 * m && -2 * m <= u[1] <= 2 * m && -2 * m <= u[2] <= 2 * m && -2 * m <= u[3] <= 2 * m && -2 * m <= u[4] <= 2 * m && -2 * m <= u[5] <= 2 * m && -2 * m <= u[6] <= 2 * m && -2 * m <= u[7] <= 2 * m && -2 * m <= u[8] <= 2 * m && -2 * m <= u[9] <= 2 * m && -2 * m <= u[10] <= 2 * m && -2 * m <= u[11] <= 2 * m && -2 * m <= u[12] <= 2 * m && -2 * m <= u[13] <= 2 * m && -2 * m <= u[14] <= 2 * m && -2 * m <= u[15] <= 2 * m);
}

/// Stage 2 of the ADST of sixteen values, in whole numbers.
#[verifier::opaque]
spec fn stage2(u2: Seq<i64>, u3: Seq<i64>) -> bool {
    &&& rounds(u3[9] as int, u2[8] * 799 - u2[9] * 4017)
    &&& rounds(u3[8] as int, u2[8] * 4017 + u2[9] * 799)
    &&& rounds(u3[12] as int, u2[13] * 4017 - u2[12] * 799)
    &&& rounds(u3[13] as int, u2[13] * 799 + u2[12] * 4017)
    &&& rounds(u3[11] as int, u2[10] * 3406 - u2[11] * 2276)
    &&& rounds(u3[10] as int, u2[10] * 2276 + u2[11] * 3406)
    &&& rounds(u3[14] as int, u2[15] * 2276 - u2[14] * 3406)
    &&& rounds(u3[15] as int, u2[15] * 3406 + u2[14] * 2276)
    &&& u3[0] == u2[0]
    &&& u3[1] == u2[1]
    &&& u3[2] == u2[2]
    &&& u3[3] == u2[3]
    &&& u3[4] == u2[4]
    &&& u3[5] == u2[5]
    &&& u3[6] == u2[6]
    &&& u3[7] == u2[7]
}

/// Stage 2 does as it should.
proof fn lemma_stage2(t: Seq<i64>, r: int, m: int)
    requires
        t.len() == 64,
        forall|p: int| 0 <= p < 16 ==> -m <= #[trigger] t[p] <= m,
        1 <= r,
        0 <= m <= 0x1000_0000_0000,
    ensures
        ({
            let u = partial_stage(t, Network::Adst16, 2, 4, r);
            &&& u.len() == 64
            &&& stage2(t, u)
            &&& forall|p: int| 0 <= p < 16 ==> -3 * m - 1 <= 2 * #[trigger] u[p] <= 3 * m + 1
        }),
{
    let net = Network::Adst16;
    assert(-m <= t[0] <= m && -m <= t[1] <= m && -m <= t[2] <= m && -m <= t[3] <= m && -m <= t[4] <= m && -m <= t[5] <= m && -m <= t[6] <= m && -m <= t[7] <= m && -m <= t[8] <= m && -m <= t[9] <= m && -m <= t[10] <= m && -m <= t[11] <= m && -m <= t[12] <= m && -m <= t[13] <= m && -m <= t[14] <= m && -m <= t[15] <= m);
    reveal(stage2);
    reveal(cos);
    lemma_turn(t, net, 2, 0, r, 799, 4017);
    lemma_turn(t, net, 2, 1, r, 4017, 799);
    lemma_turn(t, net, 2, 2, r, 3406, 2276);
    lemma_turn(t, net, 2, 3, r, 2276, 3406);
    lemma_rest(t, net, 2, 4, 0, r);
    lemma_rest(t, net, 2, 4, 1, r);
    lemma_rest(t, net, 2, 4, 2, r);
    lemma_rest(t, net, 2, 4, 3, r);
    lemma_rest(t, net, 2, 4, 4, r);
    lemma_rest(t, net, 2, 4, 5, r);
    lemma_rest(t, net, 2, 4, 6, r);
    lemma_rest(t, net, 2, 4, 7, r);
    let u = partial_stage(t, net, 2, 4, r);
    assert(-3 * m - 1 <= 2 * u[0] <= 3 * m + 1 && -3 * m - 1 <= 2 * u[1] <= 3 * m + 1 && -3 * m - 1 <= 2 * u[2] <= 3 * m + 1 && -3 * m - 1 <= 2 * u[3] <= 3 * m + 1 && -3 * m - 1 <= 2 * u[4] <= 3 * m + 1 && -3 * m - 1 <= 2 * u[5] <= 3 * m + 1 && -3 * m - 1 <= 2 * u[6] <= 3 * m + 1 && -3 * m - 1 <= 2 * u[7] <= 3 * m + 1 && -3 * m - 1 <= 2 * u[8] <= 3 * m + 1 && -3 * m - 1 <= 2 * u[9] <= 3 * m + 1 && -3 * m - 1 <= 2 * u[10] <= 3 * m + 1 && -3 * m - 1 <= 2 * u[11] <= 3 * m + 1 && -3 * m - 1 <= 2 * u[12] <= 3 * m + 1 && -3 * m - 1 <= 2 * u[13] <= 3 * m + 1 && -3 * m - 1 <= 2 * u[14] <= 3 * m + 1 && -3 * m - 1 <= 2 * u[15] <= 3 * m + 1);
}

/// Stage 3 of the ADST of sixteen values, in whole numbers.
#[verifier::opaque]
spec fn stage3(u3: Seq<i64>, u4: Seq<i64>) -> bool {
    &&& u4[0] == u3[0] + u3[4]
    &&& u4[4] == u3[0] - u3[4]
    &&& u4[8] == u3[8] + u3[12]
    &&& u4[12] == u3[8] - u3[12]
    &&& u4[1] == u3[1] + u3[5]
    &&& u4[5] == u3[1] - u3[5]
    &&& u4[9] == u3[9] + u3[13]
    &&& u4[13] == u3[9] - u3[13]
    &&& u4[2] == u3[2] + u3[6]
    &&& u4[6] == u3[2] - u3[6]
    &&& u4[10] == u3[10] + u3[14]
    &&& u4[14] == u3[10] - u3[14]
    &&& u4[3] == u3[3] + u3[7]
    &&& u4[7] == u3[3] - u3[7]
    &&& u4[11] == u3[11] + u3[15]
    &&& u4[15] == u3[11] - u3[15]
}

/// Stage 3 does as it should.
proof fn lemma_stage3(t: Seq<i64>, r: int, m: int)
    requires
        t.len() == 64,
        forall|p: int| 0 <= p < 16 ==> -m <= #[trigger] t[p] <= m,
        1 <= r,
        0 <= m <= 0x1000_0000_0000,
        2 * m < p2(r - 1),
    ensures
        ({
            let u = partial_stage(t, Network::Adst16, 3, 8, r);
            &&& u.len() == 64
            &&& stage3(t, u)
            &&& forall|p: int| 0 <= p < 16 ==> -2 * m <= #[trigger] u[p] <= 2 * m
        }),
{
    let net = Network::Adst16;
    assert(-m <= t[0] <= m && -m <= t[1] <= m && -m <= t[2] <= m && -m <= t[3] <= m && -m <= t[4] <= m && -m <= t[5] <= m && -m <= t[6] <= m && -m <= t[7] <= m && -m <= t[8] <= m && -m <= t[9] <= m && -m <= t[10] <= m && -m <= t[11] <= m && -m <= t[12] <= m && -m <= t[13] <= m && -m <= t[14] <= m && -m <= t[15] <= m);
    reveal(stage3);
    lemma_sum(t, net, 3, 0, r);
    lemma_sum(t, net, 3, 1, r);
    lemma_sum(t, net, 3, 2, r);
    lemma_sum(t, net, 3, 3, r);
    lemma_sum(t, net, 3, 4, r);
    lemma_sum(t, net, 3, 5, r);
    lemma_sum(t, net, 3, 6, r);
    lemma_sum(t, net, 3, 7, r);
    let u = partial_stage(t, net, 3, 8, r);
    assert(-2 * m <= u[0] <= 2 * m && -2 * m <= u[1] <= 2 * m && -2 * m <= u[2] <= 2 * m && -2 * m <= u[3] <= 2 * m && -2 * m <= u[4] <= 2 * m && -2 * m <= u[5] <= 2 * m && -2 * m <= u[6] <= 2 * m && -2 * m <= u[7] <= 2 * m && -2 * m <= u[8] <= 2 * m && -2 * m <= u[9] <= 2 * m && -2 * m <= u[10] <= 2 * m && -2 * m <= u[11] <= 2 * m && -2 * m <= u[12] <= 2 * m && -2 * m <= u[13] <= 2 * m && -2 * m <= u[14] <= 2 * m && -2 * m <= u[15] <= 2 * m);
}

/// Stage 4 of the ADST of sixteen values, in whole numbers.
#[verifier::opaque]
spec fn stage4(u4: Seq<i64>, u5: Seq<i64>) -> bool {
    &&& rounds(u5[5] as int, u4[4] * 1567 - u4[5] * 3784)
    &&& rounds(u5[4] as int, u4[4] * 3784 + u4[5] * 1567)
    &&& rounds(u5[13] as int, u4[12] * 1567 - u4[13] * 3784)
    &&& rounds(u5[12] as int, u4[12] * 3784 + u4[13] * 1567)
    &&& rounds(u5[6] as int, u4[7] * 3784 - u4[6] * 1567)
    &&& rounds(u5[7] as int, u4[7] * 1567 + u4[6] * 3784)
    &&& rounds(u5[14] as int, u4[15] * 3784 - u4[14] * 1567)
    &&& rounds(u5[15] as int, u4[15] * 1567 + u4[14] * 3784)
    &&& u5[0] == u4[0]
    &&& u5[1] == u4[1]
    &&& u5[2] == u4[2]
    &&& u5[3] == u4[3]
    &&& u5[8] == u4[8]
    &&& u5[9] == u4[9]
    &&& u5[10] == u4[10]
    &&& u5[11] == u4[11]
}

/// Stage 4 does as it should.
proof fn lemma_stage4(t: Seq<i64>, r: int, m: int)
    requires
        t.len() == 64,
        forall|p: int| 0 <= p < 16 ==> -m <= #[trigger] t[p] <= m,
        1 <= r,
        0 <= m <= 0x1000_0000_0000,
    ensures
        ({
            let u = partial_stage(t, Network::Adst16, 4, 4, r);
            &&& u.len() == 64
            &&& stage4(t, u)
            &&& forall|p: int| 0 <= p < 16 ==> -3 * m - 1 <= 2 * #[trigger] u[p] <= 3 * m + 1
        }),
{
    let net = Network::Adst16;
    assert(-m <= t[0] <= m && -m <= t[1] <= m && -m <= t[2] <= m && -m <= t[3] <= m && -m <= t[4] <= m && -m <= t[5] <= m && -m <= t[6] <= m && -m <= t[7] <= m && -m <= t[8] <= m && -m <= t[9] <= m && -m <= t[10] <= m && -m <= t[11] <= m && -m <= t[12] <= m && -m <= t[13] <= m && -m <= t[14] <= m && -m <= t[15] <= m);
    reveal(stage4);
    reveal(cos);
    lemma_turn(t, net, 4, 0, r, 1567, 3784);
    lemma_turn(t, net, 4, 1, r, 1567, 3784);
    lemma_turn(t, net, 4, 2, r, 3784, 1567);
    lemma_turn(t, net, 4, 3, r, 3784, 1567);
    lemma_rest(t, net, 4, 4, 0, r);
    lemma_rest(t, net, 4, 4, 1, r);
    lemma_rest(t, net, 4, 4, 2, r);
    lemma_rest(t, net, 4, 4, 3, r);
    lemma_rest(t, net, 4, 4, 8, r);
    lemma_rest(t, net, 4, 4, 9, r);
    lemma_rest(t, net, 4, 4, 10, r);
    lemma_rest(t, net, 4, 4, 11, r);
    let u = partial_stage(t, net, 4, 4, r);
    assert(-3 * m - 1 <= 2 * u[0] <= 3 * m + 1 && -3 * m - 1 <= 2 * u[1] <= 3 * m + 1 && -3 * m - 1 <= 2 * u[2] <= 3 * m + 1 && -3 * m - 1 <= 2 * u[3] <= 3 * m + 1 && -3 * m - 1 <= 2 * u[4] <= 3 * m + 1 && -3 * m - 1 <= 2 * u[5] <= 3 * m + 1 && -3 * m - 1 <= 2 * u[6] <= 3 * m + 1 && -3 * m - 1 <= 2 * u[7] <= 3 * m + 1 && -3 * m - 1 <= 2 * u[8] <= 3 * m + 1 && -3 * m - 1 <= 2 * u[9] <= 3 * m + 1 && -3 * m - 1 <= 2 * u[10] <= 3 * m + 1 && -3 * m - 1 <= 2 * u[11] <= 3 * m + 1 && -3 * m - 1 <= 2 * u[12] <= 3 * m + 1 && -3 * m - 1 <= 2 * u[13] <= 3 * m + 1 && -3 * m - 1 <= 2 * u[14] <= 3 * m + 1 && -3 * m - 1 <= 2 * u[15] <= 3 * m + 1);
}

/// Stage 5 of the ADST of sixteen values, in whole numbers.
#[verifier::opaque]
spec fn stage5(u5: Seq<i64>, u6: Seq<i64>) -> bool {
    &&& u6[0] == u5[0] + u5[2]
    &&& u6[2] == u5[0] - u5[2]
    &&& u6[4] == u5[4] + u5[6]
    &&& u6[6] == u5[4] - u5[6]
    &&& u6[8] == u5[8] + u5[10]
    &&& u6[10] == u5[8] - u5[10]
    &&& u6[12] == u5[12] + u5[14]
    &&& u6[14] == u5[12] - u5[14]
    &&& u6[1] == u5[1] + u5[3]
    &&& u6[3] == u5[1] - u5[3]
    &&& u6[5] == u5[5] + u5[7]
    &&& u6[7] == u5[5] - u5[7]
    &&& u6[9] == u5[9] + u5[11]
    &&& u6[11] == u5[9] - u5[11]
    &&& u6[13] == u5[13] + u5[15]
    &&& u6[15] == u5[13] - u5[15]
}

/// Stage 5 does as it should.
proof fn lemma_stage5(t: Seq<i64>, r: int, m: int)
    requires
        t.len() == 64,
        forall|p: int| 0 <= p < 16 ==> -m <= #[trigger] t[p] <= m,
        1 <= r,
        0 <= m <= 0x1000_0000_0000,
        2 * m < p2(r - 1),
    ensures
        ({
            let u = partial_stage(t, Network::Adst16, 5, 8, r);
            &&& u.len() == 64
            &&& stage5(t, u)
            &&& forall|p: int| 0 <= p < 16 ==> -2 * m <= #[trigger] u[p] <= 2 * m
        }),
{
    let net = Network::Adst16;
    assert(-m <= t[0] <= m && -m <= t[1] <= m && -m <= t[2] <= m && -m <= t[3] <= m && -m <= t[4] <= m && -m <= t[5] <= m && -m <= t[6] <= m && -m <= t[7] <= m && -m <= t[8] <= m && -m <= t[9] <= m && -m <= t[10] <= m && -m <= t[11] <= m && -m <= t[12] <= m && -m <= t[13] <= m && -m <= t[14] <= m && -m <= t[15] <= m);
    reveal(stage5);
    lemma_sum(t, net, 5, 0, r);
    lemma_sum(t, net, 5, 1, r);
    lemma_sum(t, net, 5, 2, r);
    lemma_sum(t, net, 5, 3, r);
    lemma_sum(t, net, 5, 4, r);
    lemma_sum(t, net, 5, 5, r);
    lemma_sum(t, net, 5, 6, r);
    lemma_sum(t, net, 5, 7, r);
    let u = partial_stage(t, net, 5, 8, r);
    assert(-2 * m <= u[0] <= 2 * m && -2 * m <= u[1] <= 2 * m && -2 * m <= u[2] <= 2 * m && -2 * m <= u[3] <= 2 * m && -2 * m <= u[4] <= 2 * m && -2 * m <= u[5] <= 2 * m && -2 * m <= u[6] <= 2 * m && -2 * m <= u[7] <= 2 * m && -2 * m <= u[8] <= 2 * m && -2 * m <= u[9] <= 2 * m && -2 * m <= u[10] <= 2 * m && -2 * m <= u[11] <= 2 * m && -2 * m <= u[12] <= 2 * m && -2 * m <= u[13] <= 2 * m && -2 * m <= u[14] <= 2 * m && -2 * m <= u[15] <= 2 * m);
}

/// Stage 6 of the ADST of sixteen values, in whole numbers.
#[verifier::opaque]
spec fn stage6(u6: Seq<i64>, u7: Seq<i64>) -> bool {
    &&& rounds(u7[3] as int, u6[2] * 2896 - u6[3] * 2896)
    &&& rounds(u7[2] as int, u6[2] * 2896 + u6[3] * 2896)
    &&& rounds(u7[7] as int, u6[6] * 2896 - u6[7] * 2896)
    &&& rounds(u7[6] as int, u6[6] * 2896 + u6[7] * 2896)
    &&& rounds(u7[11] as int, u6[10] * 2896 - u6[11] * 2896)
    &&& rounds(u7[10] as int, u6[10] * 2896 + u6[11] * 2896)
    &&& rounds(u7[15] as int, u6[14] * 2896 - u6[15] * 2896)
    &&& rounds(u7[14] as int, u6[14] * 2896 + u6[15] * 2896)
    &&& u7[0] == u6[0]
    &&& u7[1] == u6[1]
    &&& u7[4] == u6[4]
    &&& u7[5] == u6[5]
    &&& u7[8] == u6[8]
    &&& u7[9] == u6[9]
    &&& u7[12] == u6[12]
    &&& u7[13] == u6[13]
}

/// Stage 6 does as it should.
proof fn lemma_stage6(t: Seq<i64>, r: int, m: int)
    requires
        t.len() == 64,
        forall|p: int| 0 <= p < 16 ==> -m <= #[trigger] t[p] <= m,
        1 <= r,
        0 <= m <= 0x1000_0000_0000,
    ensures
        ({
            let u = partial_stage(t, Network::Adst16, 6, 4, r);
            &&& u.len() == 64
            &&& stage6(t, u)
            &&& forall|p: int| 0 <= p < 16 ==> -3 * m - 1 <= 2 * #[trigger] u[p] <= 3 * m + 1
        }),
{
    let net = Network::Adst16;
    assert(-m <= t[0] <= m && -m <= t[1] <= m && -m <= t[2] <= m && -m <= t[3] <= m && -m <= t[4] <= m && -m <= t[5] <= m && -m <= t[6] <= m && -m <= t[7] <= m && -m <= t[8] <= m && -m <= t[9] <= m && -m <= t[10] <= m && -m <= t[11] <= m && -m <= t[12] <= m && -m <= t[13] <= m && -m <= t[14] <= m && -m <= t[15] <= m);
    reveal(stage6);
    reveal(cos);
    lemma_turn(t, net, 6, 0, r, 2896, 2896);
    lemma_turn(t, net, 6, 1, r, 2896, 2896);
    lemma_turn(t, net, 6, 2, r, 2896, 2896);
    lemma_turn(t, net, 6, 3, r, 2896, 2896);
    lemma_rest(t, net, 6, 4, 0, r);
    lemma_rest(t, net, 6, 4, 1, r);
    lemma_rest(t, net, 6, 4, 4, r);
    lemma_rest(t, net, 6, 4, 5, r);
    lemma_rest(t, net, 6, 4, 8, r);
    lemma_rest(t, net, 6, 4, 9, r);
    lemma_rest(t, net, 6, 4, 12, r);
    lemma_rest(t, net, 6, 4, 13, r);
    let u = partial_stage(t, net, 6, 4, r);
    assert(-3 * m - 1 <= 2 * u[0] <= 3 * m + 1 && -3 * m - 1 <= 2 * u[1] <= 3 * m + 1 && -3 * m - 1 <= 2 * u[2] <= 3 * m + 1 && -3 * m - 1 <= 2 * u[3] <= 3 * m + 1 && -3 * m - 1 <= 2 * u[4] <= 3 * m + 1 && -3 * m - 1 <= 2 * u[5] <= 3 * m + 1 && -3 * m - 1 <= 2 * u[6] <= 3 * m + 1 && -3 * m - 1 <= 2 * u[7] <= 3 * m + 1 && -3 * m - 1 <= 2 * u[8] <= 3 * m + 1 && -3 * m - 1 <= 2 * u[9] <= 3 * m + 1 && -3 * m - 1 <= 2 * u[10] <= 3 * m + 1 && -3 * m - 1 <= 2 * u[11] <= 3 * m + 1 && -3 * m - 1 <= 2 * u[12] <= 3 * m + 1 && -3 * m - 1 <= 2 * u[13] <= 3 * m + 1 && -3 * m - 1 <= 2 * u[14] <= 3 * m + 1 && -3 * m - 1 <= 2 * u[15] <= 3 * m + 1);
}

/// What the values are midway, in terms of the input, to within little.
#[verifier::opaque]
spec fn midway(q: Seq<i64>, u: Seq<i64>, m: int) -> bool {
    &&& -15460 - 2 * m <= 4096 * u[0] - (q[0] * 4091 + q[1] * 201 + q[4] * 3703 + q[5] * 1751 + q[8] * 2751 + q[9] * 3035 + q[12] * 1380 + q[13] * 3857) <= 15460 + 2 * m
    &&& -15460 - 2 * m <= 4096 * u[1] - (q[0] * 201 - q[1] * 4091 + q[4] * 1751 - q[5] * 3703 + q[8] * 3035 - q[9] * 2751 + q[12] * 3857 - q[13] * 1380) <= 15460 + 2 * m
    &&& -15460 - 2 * m <= 4096 * u[2] - (q[2] * 3973 + q[3] * 995 + q[6] * 3290 + q[7] * 2440 + q[10] * 2106 + q[11] * 3513 + q[14] * 601 + q[15] * 4052) <= 15460 + 2 * m
    &&& -15460 - 2 * m <= 4096 * u[3] - (q[2] * 995 - q[3] * 3973 + q[6] * 2440 - q[7] * 3290 + q[10] * 3513 - q[11] * 2106 + q[14] * 4052 - q[15] * 601) <= 15460 + 2 * m
    &&& -15460 - 2 * m <= 4096 * u[4] - (q[0] * 4091 + q[1] * 201 - q[4] * 3703 - q[5] * 1751 + q[8] * 2751 + q[9] * 3035 - q[12] * 1380 - q[13] * 3857) <= 15460 + 2 * m
    &&& -15460 - 2 * m <= 4096 * u[5] - (q[0] * 201 - q[1] * 4091 - q[4] * 1751 + q[5] * 3703 + q[8] * 3035 - q[9] * 2751 - q[12] * 3857 + q[13] * 1380) <= 15460 + 2 * m
    &&& -15460 - 2 * m <= 4096 * u[6] - (q[2] * 3973 + q[3] * 995 - q[6] * 3290 - q[7] * 2440 + q[10] * 2106 + q[11] * 3513 - q[14] * 601 - q[15] * 4052) <= 15460 + 2 * m
    &&& -15460 - 2 * m <= 4096 * u[7] - (q[2] * 995 - q[3] * 3973 - q[6] * 2440 + q[7] * 3290 + q[10] * 3513 - q[11] * 2106 - q[14] * 4052 + q[15] * 601) <= 15460 + 2 * m
    &&& -15460 - 2 * m <= 4096 * u[8] - (q[0] * 4051 - q[1] * 601 + q[4] * 995 - q[5] * 3973 - q[8] * 3290 - q[9] * 2440 - q[12] * 3513 + q[13] * 2106) <= 15460 + 2 * m
    &&& -15460 - 2 * m <= 4096 * u[9] - (q[0] * 601 + q[1] * 4051 + q[4] * 3973 + q[5] * 995 + q[8] * 2440 - q[9] * 3290 - q[12] * 2106 - q[13] * 3513) <= 15460 + 2 * m
    &&& -15460 - 2 * m <= 4096 * u[10] - (q[2] * 3035 - q[3] * 2751 - q[6] * 1380 - q[7] * 3857 - q[10] * 4091 - q[11] * 201 - q[14] * 1752 + q[15] * 3703) <= 15460 + 2 * m
    &&& -15460 - 2 * m <= 4096 * u[11] - (q[2] * 2751 + q[3] * 3035 + q[6] * 3857 - q[7] * 1380 + q[10] * 201 - q[11] * 4091 - q[14] * 3703 - q[15] * 1752) <= 15460 + 2 * m
    &&& -15460 - 2 * m <= 4096 * u[12] - (q[0] * 4051 - q[1] * 601 - q[4] * 995 + q[5] * 3973 - q[8] * 3290 - q[9] * 2440 + q[12] * 3513 - q[13] * 2106) <= 15460 + 2 * m
    &&& -15460 - 2 * m <= 4096 * u[13] - (q[0] * 601 + q[1] * 4051 - q[4] * 3973 - q[5] * 995 + q[8] * 2440 - q[9] * 3290 + q[12] * 2106 + q[13] * 3513) <= 15460 + 2 * m
    &&& -15460 - 2 * m <= 4096 * u[14] - (q[2] * 3035 - q[3] * 2751 + q[6] * 1380 + q[7] * 3857 - q[10] * 4091 - q[11] * 201 + q[14] * 1752 - q[15] * 3703) <= 15460 + 2 * m
    &&& -15460 - 2 * m <= 4096 * u[15] - (q[2] * 2751 + q[3] * 3035 - q[6] * 3857 + q[7] * 1380 + q[10] * 201 - q[11] * 4091 + q[14] * 3703 + q[15] * 1752) <= 15460 + 2 * m
}

/// Some values midway.
proof fn lemma_midway_from0(q: Seq<i64>, u1: Seq<i64>, u2: Seq<i64>, u3: Seq<i64>, u4: Seq<i64>, m: int)
    requires
        stage0(q, u1),
        stage1(u1, u2),
        stage2(u2, u3),
        stage3(u3, u4),
        forall|p: int| 0 <= p < 16 ==> -m <= #[trigger] q[p] <= m,
    ensures
        -15460 - 2 * m <= 4096 * u4[0] - (q[0] * 4091 + q[1] * 201 + q[4] * 3703 + q[5] * 1751 + q[8] * 2751 + q[9] * 3035 + q[12] * 1380 + q[13] * 3857) <= 15460 + 2 * m,
        -15460 - 2 * m <= 4096 * u4[1] - (q[0] * 201 - q[1] * 4091 + q[4] * 1751 - q[5] * 3703 + q[8] * 3035 - q[9] * 2751 + q[12] * 3857 - q[13] * 1380) <= 15460 + 2 * m,
        -15460 - 2 * m <= 4096 * u4[2] - (q[2] * 3973 + q[3] * 995 + q[6] * 3290 + q[7] * 2440 + q[10] * 2106 + q[11] * 3513 + q[14] * 601 + q[15] * 4052) <= 15460 + 2 * m,
        -15460 - 2 * m <= 4096 * u4[3] - (q[2] * 995 - q[3] * 3973 + q[6] * 2440 - q[7] * 3290 + q[10] * 3513 - q[11] * 2106 + q[14] * 4052 - q[15] * 601) <= 15460 + 2 * m,
{
    reveal(stage0);
    reveal(stage1);
    reveal(stage2);
    reveal(stage3);
    assert(-m <= q[0] <= m && -m <= q[1] <= m && -m <= q[2] <= m && -m <= q[3] <= m && -m <= q[4] <= m && -m <= q[5] <= m && -m <= q[6] <= m && -m <= q[7] <= m && -m <= q[8] <= m && -m <= q[9] <= m && -m <= q[10] <= m && -m <= q[11] <= m && -m <= q[12] <= m && -m <= q[13] <= m && -m <= q[14] <= m && -m <= q[15] <= m);
}

/// Some values midway.
proof fn lemma_midway_from4(q: Seq<i64>, u1: Seq<i64>, u2: Seq<i64>, u3: Seq<i64>, u4: Seq<i64>, m: int)
    requires
        stage0(q, u1),
        stage1(u1, u2),
        stage2(u2, u3),
        stage3(u3, u4),
        forall|p: int| 0 <= p < 16 ==> -m <= #[trigger] q[p] <= m,
    ensures
        -15460 - 2 * m <= 4096 * u4[4] - (q[0] * 4091 + q[1] * 201 - q[4] * 3703 - q[5] * 1751 + q[8] * 2751 + q[9] * 3035 - q[12] * 1380 - q[13] * 3857) <= 15460 + 2 * m,
        -15460 - 2 * m <= 4096 * u4[5] - (q[0] * 201 - q[1] * 4091 - q[4] * 1751 + q[5] * 3703 + q[8] * 3035 - q[9] * 2751 - q[12] * 3857 + q[13] * 1380) <= 15460 + 2 * m,
        -15460 - 2 * m <= 4096 * u4[6] - (q[2] * 3973 + q[3] * 995 - q[6] * 3290 - q[7] * 2440 + q[10] * 2106 + q[11] * 3513 - q[14] * 601 - q[15] * 4052) <= 15460 + 2 * m,
        -15460 - 2 * m <= 4096 * u4[7] - (q[2] * 995 - q[3] * 3973 - q[6] * 2440 + q[7] * 3290 + q[10] * 3513 - q[11] * 2106 - q[14] * 4052 + q[15] * 601) <= 15460 + 2 * m,
{
    reveal(stage0);
    reveal(stage1);
    reveal(stage2);
    reveal(stage3);
    assert(-m <= q[0] <= m && -m <= q[1] <= m && -m <= q[2] <= m && -m <= q[3] <= m && -m <= q[4] <= m && -m <= q[5] <= m && -m <= q[6] <= m && -m <= q[7] <= m && -m <= q[8] <= m && -m <= q[9] <= m && -m <= q[10] <= m && -m <= q[11] <= m && -m <= q[12] <= m && -m <= q[13] <= m && -m <= q[14] <= m && -m <= q[15] <= m);
}

/// Some values midway.
proof fn lemma_midway_from8(q: Seq<i64>, u1: Seq<i64>, u2: Seq<i64>, u3: Seq<i64>, u4: Seq<i64>, m: int)
    requires
        stage0(q, u1),
        stage1(u1, u2),
        stage2(u2, u3),
        stage3(u3, u4),
        forall|p: int| 0 <= p < 16 ==> -m <= #[trigger] q[p] <= m,
    ensures
        -15460 - 2 * m <= 4096 * u4[8] - (q[0] * 4051 - q[1] * 601 + q[4] * 995 - q[5] * 3973 - q[8] * 3290 - q[9] * 2440 - q[12] * 3513 + q[13] * 2106) <= 15460 + 2 * m,
        -15460 - 2 * m <= 4096 * u4[9] - (q[0] * 601 + q[1] * 4051 + q[4] * 3973 + q[5] * 995 + q[8] * 2440 - q[9] * 3290 - q[12] * 2106 - q[13] * 3513) <= 15460 + 2 * m,
        -15460 - 2 * m <= 4096 * u4[10] - (q[2] * 3035 - q[3] * 2751 - q[6] * 1380 - q[7] * 3857 - q[10] * 4091 - q[11] * 201 - q[14] * 1752 + q[15] * 3703) <= 15460 + 2 * m,
        -15460 - 2 * m <= 4096 * u4[11] - (q[2] * 2751 + q[3] * 3035 + q[6] * 3857 - q[7] * 1380 + q[10] * 201 - q[11] * 4091 - q[14] * 3703 - q[15] * 1752) <= 15460 + 2 * m,
{
    reveal(stage0);
    reveal(stage1);
    reveal(stage2);
    reveal(stage3);
    assert(-m <= q[0] <= m && -m <= q[1] <= m && -m <= q[2] <= m && -m <= q[3] <= m && -m <= q[4] <= m && -m <= q[5] <= m && -m <= q[6] <= m && -m <= q[7] <= m && -m <= q[8] <= m && -m <= q[9] <= m && -m <= q[10] <= m && -m <= q[11] <= m && -m <= q[12] <= m && -m <= q[13] <= m && -m <= q[14] <= m && -m <= q[15] <= m);
}

/// Some values midway.
proof fn lemma_midway_from12(q: Seq<i64>, u1: Seq<i64>, u2: Seq<i64>, u3: Seq<i64>, u4: Seq<i64>, m: int)
    requires
        stage0(q, u1),
        stage1(u1, u2),
        stage2(u2, u3),
        stage3(u3, u4),
        forall|p: int| 0 <= p < 16 ==> -m <= #[trigger] q[p] <= m,
    ensures
        -15460 - 2 * m <= 4096 * u4[12] - (q[0] * 4051 - q[1] * 601 - q[4] * 995 + q[5] * 3973 - q[8] * 3290 - q[9] * 2440 + q[12] * 3513 - q[13] * 2106) <= 15460 + 2 * m,
        -15460 - 2 * m <= 4096 * u4[13] - (q[0] * 601 + q[1] * 4051 - q[4] * 3973 - q[5] * 995 + q[8] * 2440 - q[9] * 3290 + q[12] * 2106 + q[13] * 3513) <= 15460 + 2 * m,
        -15460 - 2 * m <= 4096 * u4[14] - (q[2] * 3035 - q[3] * 2751 + q[6] * 1380 + q[7] * 3857 - q[10] * 4091 - q[11] * 201 + q[14] * 1752 - q[15] * 3703) <= 15460 + 2 * m,
        -15460 - 2 * m <= 4096 * u4[15] - (q[2] * 2751 + q[3] * 3035 - q[6] * 3857 + q[7] * 1380 + q[10] * 201 - q[11] * 4091 + q[14] * 3703 + q[15] * 1752) <= 15460 + 2 * m,
{
    reveal(stage0);
    reveal(stage1);
    reveal(stage2);
    reveal(stage3);
    assert(-m <= q[0] <= m && -m <= q[1] <= m && -m <= q[2] <= m && -m <= q[3] <= m && -m <= q[4] <= m && -m <= q[5] <= m && -m <= q[6] <= m && -m <= q[7] <= m && -m <= q[8] <= m && -m <= q[9] <= m && -m <= q[10] <= m && -m <= q[11] <= m && -m <= q[12] <= m && -m <= q[13] <= m && -m <= q[14] <= m && -m <= q[15] <= m);
}

/// Some outputs.
proof fn lemma_outputs_from0(q: Seq<i64>, u4: Seq<i64>, u5: Seq<i64>, u6: Seq<i64>, u7: Seq<i64>, m: int)
    requires
        midway(q, u4, m),
        stage4(u4, u5),
        stage5(u5, u6),
        stage6(u6, u7),
        forall|p: int| 0 <= p < 16 ==> -m <= #[trigger] q[p] <= m,
    ensures
        -49152 - 16 * m <= 4096 * u7[0] - (q[0] * 4091 + q[1] * 201 + q[2] * 3973 + q[3] * 995 + q[4] * 3703 + q[5] * 1751 + q[6] * 3290 + q[7] * 2440 + q[8] * 2751 + q[9] * 3035 + q[10] * 2106 + q[11] * 3513 + q[12] * 1380 + q[13] * 3857 + q[14] * 601 + q[15] * 4052) <= 49152 + 16 * m,
        -49152 - 16 * m <= -4096 * u7[8] - (-4052 * q[0] + q[1] * 601 - q[2] * 3035 + q[3] * 2751 - q[4] * 995 + q[5] * 3973 + q[6] * 1380 + q[7] * 3857 + q[8] * 3290 + q[9] * 2440 + q[10] * 4091 + q[11] * 201 + q[12] * 3513 - q[13] * 2106 + q[14] * 1751 - q[15] * 3703) <= 49152 + 16 * m,
{
    reveal(midway);
    reveal(stage4);
    reveal(stage5);
    reveal(stage6);
    assert(-m <= q[0] <= m && -m <= q[1] <= m && -m <= q[2] <= m && -m <= q[3] <= m && -m <= q[4] <= m && -m <= q[5] <= m && -m <= q[6] <= m && -m <= q[7] <= m && -m <= q[8] <= m && -m <= q[9] <= m && -m <= q[10] <= m && -m <= q[11] <= m && -m <= q[12] <= m && -m <= q[13] <= m && -m <= q[14] <= m && -m <= q[15] <= m);
}

/// Some outputs.
proof fn lemma_outputs_from2(q: Seq<i64>, u4: Seq<i64>, u5: Seq<i64>, u6: Seq<i64>, u7: Seq<i64>, m: int)
    requires
        midway(q, u4, m),
        stage4(u4, u5),
        stage5(u5, u6),
        stage6(u6, u7),
        forall|p: int| 0 <= p < 16 ==> -m <= #[trigger] q[p] <= m,
    ensures
        -49152 - 16 * m <= 4096 * u7[12] - (q[0] * 3973 + q[1] * 995 + q[2] * 1380 + q[3] * 3857 - q[4] * 2440 + q[5] * 3290 - q[6] * 4091 - q[7] * 201 - q[8] * 2106 - q[9] * 3513 + q[10] * 1751 - q[11] * 3703 + q[12] * 4052 - q[13] * 601 + q[14] * 2751 + q[15] * 3035) <= 49152 + 16 * m,
        -49152 - 16 * m <= -4096 * u7[4] - (-3857 * q[0] + q[1] * 1380 + q[2] * 601 + q[3] * 4052 + q[4] * 4091 + q[5] * 201 + q[6] * 995 - q[7] * 3973 - q[8] * 3703 - q[9] * 1751 - q[10] * 2440 + q[11] * 3290 + q[12] * 2751 + q[13] * 3035 + q[14] * 3513 - q[15] * 2106) <= 49152 + 16 * m,
{
    reveal(midway);
    reveal(stage4);
    reveal(stage5);
    reveal(stage6);
    assert(-m <= q[0] <= m && -m <= q[1] <= m && -m <= q[2] <= m && -m <= q[3] <= m && -m <= q[4] <= m && -m <= q[5] <= m && -m <= q[6] <= m && -m <= q[7] <= m && -m <= q[8] <= m && -m <= q[9] <= m && -m <= q[10] <= m && -m <= q[11] <= m && -m <= q[12] <= m && -m <= q[13] <= m && -m <= q[14] <= m && -m <= q[15] <= m);
}

/// Some outputs.
proof fn lemma_outputs_from4(q: Seq<i64>, u4: Seq<i64>, u5: Seq<i64>, u6: Seq<i64>, u7: Seq<i64>, m: int)
    requires
        midway(q, u4, m),
        stage4(u4, u5),
        stage5(u5, u6),
        stage6(u6, u7),
        forall|p: int| 0 <= p < 16 ==> -m <= #[trigger] q[p] <= m,
    ensures
        -49152 - 16 * m <= 4096 * u7[6] - (q[0] * 3703 + q[1] * 1751 - q[2] * 2440 + q[3] * 3290 - q[4] * 2751 - q[5] * 3035 + q[6] * 3513 - q[7] * 2106 + q[8] * 1380 + q[9] * 3857 - q[10] * 4052 + q[11] * 601 + q[12] * 201 - q[13] * 4091 + q[14] * 3973 + q[15] * 995) <= 49152 + 16 * m,
        -49152 - 16 * m <= -4096 * u7[14] - (-3513 * q[0] + q[1] * 2106 + q[2] * 3703 + q[3] * 1751 - q[4] * 601 - q[5] * 4052 - q[6] * 3035 + q[7] * 2751 + q[8] * 3973 + q[9] * 995 - q[10] * 1380 - q[11] * 3857 - q[12] * 2440 + q[13] * 3290 + q[14] * 4091 + q[15] * 201) <= 49152 + 16 * m,
{
    reveal(midway);
    reveal(stage4);
    reveal(stage5);
    reveal(stage6);
    assert(-m <= q[0] <= m && -m <= q[1] <= m && -m <= q[2] <= m && -m <= q[3] <= m && -m <= q[4] <= m && -m <= q[5] <= m && -m <= q[6] <= m && -m <= q[7] <= m && -m <= q[8] <= m && -m <= q[9] <= m && -m <= q[10] <= m && -m <= q[11] <= m && -m <= q[12] <= m && -m <= q[13] <= m && -m <= q[14] <= m && -m <= q[15] <= m);
}

/// Some outputs.
proof fn lemma_outputs_from6(q: Seq<i64>, u4: Seq<i64>, u5: Seq<i64>, u6: Seq<i64>, u7: Seq<i64>, m: int)
    requires
        midway(q, u4, m),
        stage4(u4, u5),
        stage5(u5, u6),
        stage6(u6, u7),
        forall|p: int| 0 <= p < 16 ==> -m <= #[trigger] q[p] <= m,
    ensures
        -49152 - 16 * m <= 4096 * u7[10] - (q[0] * 3290 + q[1] * 2440 - q[2] * 4091 - q[3] * 201 + q[4] * 3513 - q[5] * 2106 - q[6] * 1751 + q[7] * 3703 - q[8] * 601 - q[9] * 4052 + q[10] * 2751 + q[11] * 3035 - q[12] * 3973 - q[13] * 995 + q[14] * 3857 - q[15] * 1380) <= 49152 + 16 * m,
        -49152 - 16 * m <= -4096 * u7[2] - (-3035 * q[0] + q[1] * 2751 + q[2] * 3513 - q[3] * 2106 - q[4] * 3857 + q[5] * 1380 + q[6] * 4052 - q[7] * 601 - q[8] * 4091 - q[9] * 201 + q[10] * 3973 + q[11] * 995 - q[12] * 3703 - q[13] * 1751 + q[14] * 3290 + q[15] * 2440) <= 49152 + 16 * m,
{
    reveal(midway);
    reveal(stage4);
    reveal(stage5);
    reveal(stage6);
    assert(-m <= q[0] <= m && -m <= q[1] <= m && -m <= q[2] <= m && -m <= q[3] <= m && -m <= q[4] <= m && -m <= q[5] <= m && -m <= q[6] <= m && -m <= q[7] <= m && -m <= q[8] <= m && -m <= q[9] <= m && -m <= q[10] <= m && -m <= q[11] <= m && -m <= q[12] <= m && -m <= q[13] <= m && -m <= q[14] <= m && -m <= q[15] <= m);
}

/// Some outputs.
proof fn lemma_outputs_from8(q: Seq<i64>, u4: Seq<i64>, u5: Seq<i64>, u6: Seq<i64>, u7: Seq<i64>, m: int)
    requires
        midway(q, u4, m),
        stage4(u4, u5),
        stage5(u5, u6),
        stage6(u6, u7),
        forall|p: int| 0 <= p < 16 ==> -m <= #[trigger] q[p] <= m,
    ensures
        -49152 - 16 * m <= 4096 * u7[3] - (q[0] * 2751 + q[1] * 3035 - q[2] * 2106 - q[3] * 3513 + q[4] * 1380 + q[5] * 3857 - q[6] * 601 - q[7] * 4052 - q[8] * 201 + q[9] * 4091 + q[10] * 995 - q[11] * 3973 - q[12] * 1751 + q[13] * 3703 + q[14] * 2440 - q[15] * 3290) <= 49152 + 16 * m,
        -49152 - 16 * m <= -4096 * u7[11] - (-2440 * q[0] + q[1] * 3290 + q[2] * 201 - q[3] * 4091 + q[4] * 2106 + q[5] * 3513 - q[6] * 3703 - q[7] * 1751 + q[8] * 4052 - q[9] * 601 - q[10] * 3035 + q[11] * 2751 + q[12] * 995 - q[13] * 3973 + q[14] * 1380 + q[15] * 3857) <= 49152 + 16 * m,
{
    reveal(midway);
    reveal(stage4);
    reveal(stage5);
    reveal(stage6);
    assert(-m <= q[0] <= m && -m <= q[1] <= m && -m <= q[2] <= m && -m <= q[3] <= m && -m <= q[4] <= m && -m <= q[5] <= m && -m <= q[6] <= m && -m <= q[7] <= m && -m <= q[8] <= m && -m <= q[9] <= m && -m <= q[10] <= m && -m <= q[11] <= m && -m <= q[12] <= m && -m <= q[13] <= m && -m <= q[14] <= m && -m <= q[15] <= m);
}

/// Some outputs.
proof fn lemma_outputs_from10(q: Seq<i64>, u4: Seq<i64>, u5: Seq<i64>, u6: Seq<i64>, u7: Seq<i64>, m: int)
    requires
        midway(q, u4, m),
        stage4(u4, u5),
        stage5(u5, u6),
        stage6(u6, u7),
        forall|p: int| 0 <= p < 16 ==> -m <= #[trigger] q[p] <= m,
    ensures
        -49152 - 16 * m <= 4096 * u7[15] - (q[0] * 2106 + q[1] * 3513 + q[2] * 1751 - q[3] * 3703 - q[4] * 4052 + q[5] * 601 + q[6] * 2751 + q[7] * 3035 + q[8] * 995 - q[9] * 3973 - q[10] * 3857 + q[11] * 1380 + q[12] * 3290 + q[13] * 2440 + q[14] * 201 - q[15] * 4091) <= 49152 + 16 * m,
        -49152 - 16 * m <= -4096 * u7[7] - (-1751 * q[0] + q[1] * 3703 - q[2] * 3290 - q[3] * 2440 + q[4] * 3035 - q[5] * 2751 + q[6] * 2106 + q[7] * 3513 - q[8] * 3857 + q[9] * 1380 - q[10] * 601 - q[11] * 4052 + q[12] * 4091 + q[13] * 201 - q[14] * 995 + q[15] * 3973) <= 49152 + 16 * m,
{
    reveal(midway);
    reveal(stage4);
    reveal(stage5);
    reveal(stage6);
    assert(-m <= q[0] <= m && -m <= q[1] <= m && -m <= q[2] <= m && -m <= q[3] <= m && -m <= q[4] <= m && -m <= q[5] <= m && -m <= q[6] <= m && -m <= q[7] <= m && -m <= q[8] <= m && -m <= q[9] <= m && -m <= q[10] <= m && -m <= q[11] <= m && -m <= q[12] <= m && -m <= q[13] <= m && -m <= q[14] <= m && -m <= q[15] <= m);
}

/// Some outputs.
proof fn lemma_outputs_from12(q: Seq<i64>, u4: Seq<i64>, u5: Seq<i64>, u6: Seq<i64>, u7: Seq<i64>, m: int)
    requires
        midway(q, u4, m),
        stage4(u4, u5),
        stage5(u5, u6),
        stage6(u6, u7),
        forall|p: int| 0 <= p < 16 ==> -m <= #[trigger] q[p] <= m,
    ensures
        -49152 - 16 * m <= 4096 * u7[5] - (q[0] * 1380 + q[1] * 3857 + q[2] * 4052 - q[3] * 601 + q[4] * 201 - q[5] * 4091 - q[6] * 3973 - q[7] * 995 - q[8] * 1751 + q[9] * 3703 + q[10] * 3290 + q[11] * 2440 + q[12] * 3035 - q[13] * 2751 - q[14] * 2106 - q[15] * 3513) <= 49152 + 16 * m,
        -49152 - 16 * m <= -4096 * u7[13] - (-995 * q[0] + q[1] * 3973 - q[2] * 3857 + q[3] * 1380 - q[4] * 3290 - q[5] * 2440 + q[6] * 201 - q[7] * 4091 + q[8] * 3513 - q[9] * 2106 + q[10] * 3703 + q[11] * 1751 + q[12] * 601 + q[13] * 4052 - q[14] * 3035 + q[15] * 2751) <= 49152 + 16 * m,
{
    reveal(midway);
    reveal(stage4);
    reveal(stage5);
    reveal(stage6);
    assert(-m <= q[0] <= m && -m <= q[1] <= m && -m <= q[2] <= m && -m <= q[3] <= m && -m <= q[4] <= m && -m <= q[5] <= m && -m <= q[6] <= m && -m <= q[7] <= m && -m <= q[8] <= m && -m <= q[9] <= m && -m <= q[10] <= m && -m <= q[11] <= m && -m <= q[12] <= m && -m <= q[13] <= m && -m <= q[14] <= m && -m <= q[15] <= m);
}

/// Some outputs.
proof fn lemma_outputs_from14(q: Seq<i64>, u4: Seq<i64>, u5: Seq<i64>, u6: Seq<i64>, u7: Seq<i64>, m: int)
    requires
        midway(q, u4, m),
        stage4(u4, u5),
        stage5(u5, u6),
        stage6(u6, u7),
        forall|p: int| 0 <= p < 16 ==> -m <= #[trigger] q[p] <= m,
    ensures
        -49152 - 16 * m <= 4096 * u7[9] - (q[0] * 601 + q[1] * 4052 + q[2] * 2751 + q[3] * 3035 + q[4] * 3973 + q[5] * 995 + q[6] * 3857 - q[7] * 1380 + q[8] * 2440 - q[9] * 3290 + q[10] * 201 - q[11] * 4091 - q[12] * 2106 - q[13] * 3513 - q[14] * 3703 - q[15] * 1751) <= 49152 + 16 * m,
        -49152 - 16 * m <= -4096 * u7[1] - (-201 * q[0] + q[1] * 4091 - q[2] * 995 + q[3] * 3973 - q[4] * 1751 + q[5] * 3703 - q[6] * 2440 + q[7] * 3290 - q[8] * 3035 + q[9] * 2751 - q[10] * 3513 + q[11] * 2106 - q[12] * 3857 + q[13] * 1380 - q[14] * 4052 + q[15] * 601) <= 49152 + 16 * m,
{
    reveal(midway);
    reveal(stage4);
    reveal(stage5);
    reveal(stage6);
    assert(-m <= q[0] <= m && -m <= q[1] <= m && -m <= q[2] <= m && -m <= q[3] <= m && -m <= q[4] <= m && -m <= q[5] <= m && -m <= q[6] <= m && -m <= q[7] <= m && -m <= q[8] <= m && -m <= q[9] <= m && -m <= q[10] <= m && -m <= q[11] <= m && -m <= q[12] <= m && -m <= q[13] <= m && -m <= q[14] <= m && -m <= q[15] <= m);
}

/// All the values midway.
proof fn lemma_midway(q: Seq<i64>, u1: Seq<i64>, u2: Seq<i64>, u3: Seq<i64>, u4: Seq<i64>, m: int)
    requires
        stage0(q, u1),
        stage1(u1, u2),
        stage2(u2, u3),
        stage3(u3, u4),
        forall|p: int| 0 <= p < 16 ==> -m <= #[trigger] q[p] <= m,
    ensures
        midway(q, u4, m),
{
    reveal(midway);
    lemma_midway_from0(q, u1, u2, u3, u4, m);
    lemma_midway_from4(q, u1, u2, u3, u4, m);
    lemma_midway_from8(q, u1, u2, u3, u4, m);
    lemma_midway_from12(q, u1, u2, u3, u4, m);
}

/// What the values are in the end, in terms of the input.
#[verifier::opaque]
spec fn outcome(q: Seq<i64>, u: Seq<i64>, m: int) -> bool {
    &&& -49152 - 16 * m <= 4096 * u[0] - (q[0] * 4091 + q[1] * 201 + q[2] * 3973 + q[3] * 995 + q[4] * 3703 + q[5] * 1751 + q[6] * 3290 + q[7] * 2440 + q[8] * 2751 + q[9] * 3035 + q[10] * 2106 + q[11] * 3513 + q[12] * 1380 + q[13] * 3857 + q[14] * 601 + q[15] * 4052) <= 49152 + 16 * m
    &&& -49152 - 16 * m <= -4096 * u[8] - (-4052 * q[0] + q[1] * 601 - q[2] * 3035 + q[3] * 2751 - q[4] * 995 + q[5] * 3973 + q[6] * 1380 + q[7] * 3857 + q[8] * 3290 + q[9] * 2440 + q[10] * 4091 + q[11] * 201 + q[12] * 3513 - q[13] * 2106 + q[14] * 1751 - q[15] * 3703) <= 49152 + 16 * m
    &&& -49152 - 16 * m <= 4096 * u[12] - (q[0] * 3973 + q[1] * 995 + q[2] * 1380 + q[3] * 3857 - q[4] * 2440 + q[5] * 3290 - q[6] * 4091 - q[7] * 201 - q[8] * 2106 - q[9] * 3513 + q[10] * 1751 - q[11] * 3703 + q[12] * 4052 - q[13] * 601 + q[14] * 2751 + q[15] * 3035) <= 49152 + 16 * m
    &&& -49152 - 16 * m <= -4096 * u[4] - (-3857 * q[0] + q[1] * 1380 + q[2] * 601 + q[3] * 4052 + q[4] * 4091 + q[5] * 201 + q[6] * 995 - q[7] * 3973 - q[8] * 3703 - q[9] * 1751 - q[10] * 2440 + q[11] * 3290 + q[12] * 2751 + q[13] * 3035 + q[14] * 3513 - q[15] * 2106) <= 49152 + 16 * m
    &&& -49152 - 16 * m <= 4096 * u[6] - (q[0] * 3703 + q[1] * 1751 - q[2] * 2440 + q[3] * 3290 - q[4] * 2751 - q[5] * 3035 + q[6] * 3513 - q[7] * 2106 + q[8] * 1380 + q[9] * 3857 - q[10] * 4052 + q[11] * 601 + q[12] * 201 - q[13] * 4091 + q[14] * 3973 + q[15] * 995) <= 49152 + 16 * m
    &&& -49152 - 16 * m <= -4096 * u[14] - (-3513 * q[0] + q[1] * 2106 + q[2] * 3703 + q[3] * 1751 - q[4] * 601 - q[5] * 4052 - q[6] * 3035 + q[7] * 2751 + q[8] * 3973 + q[9] * 995 - q[10] * 1380 - q[11] * 3857 - q[12] * 2440 + q[13] * 3290 + q[14] * 4091 + q[15] * 201) <= 49152 + 16 * m
    &&& -49152 - 16 * m <= 4096 * u[10] - (q[0] * 3290 + q[1] * 2440 - q[2] * 4091 - q[3] * 201 + q[4] * 3513 - q[5] * 2106 - q[6] * 1751 + q[7] * 3703 - q[8] * 601 - q[9] * 4052 + q[10] * 2751 + q[11] * 3035 - q[12] * 3973 - q[13] * 995 + q[14] * 3857 - q[15] * 1380) <= 49152 + 16 * m
    &&& -49152 - 16 * m <= -4096 * u[2] - (-3035 * q[0] + q[1] * 2751 + q[2] * 3513 - q[3] * 2106 - q[4] * 3857 + q[5] * 1380 + q[6] * 4052 - q[7] * 601 - q[8] * 4091 - q[9] * 201 + q[10] * 3973 + q[11] * 995 - q[12] * 3703 - q[13] * 1751 + q[14] * 3290 + q[15] * 2440) <= 49152 + 16 * m
    &&& -49152 - 16 * m <= 4096 * u[3] - (q[0] * 2751 + q[1] * 3035 - q[2] * 2106 - q[3] * 3513 + q[4] * 1380 + q[5] * 3857 - q[6] * 601 - q[7] * 4052 - q[8] * 201 + q[9] * 4091 + q[10] * 995 - q[11] * 3973 - q[12] * 1751 + q[13] * 3703 + q[14] * 2440 - q[15] * 3290) <= 49152 + 16 * m
    &&& -49152 - 16 * m <= -4096 * u[11] - (-2440 * q[0] + q[1] * 3290 + q[2] * 201 - q[3] * 4091 + q[4] * 2106 + q[5] * 3513 - q[6] * 3703 - q[7] * 1751 + q[8] * 4052 - q[9] * 601 - q[10] * 3035 + q[11] * 2751 + q[12] * 995 - q[13] * 3973 + q[14] * 1380 + q[15] * 3857) <= 49152 + 16 * m
    &&& -49152 - 16 * m <= 4096 * u[15] - (q[0] * 2106 + q[1] * 3513 + q[2] * 1751 - q[3] * 3703 - q[4] * 4052 + q[5] * 601 + q[6] * 2751 + q[7] * 3035 + q[8] * 995 - q[9] * 3973 - q[10] * 3857 + q[11] * 1380 + q[12] * 3290 + q[13] * 2440 + q[14] * 201 - q[15] * 4091) <= 49152 + 16 * m
    &&& -49152 - 16 * m <= -4096 * u[7] - (-1751 * q[0] + q[1] * 3703 - q[2] * 3290 - q[3] * 2440 + q[4] * 3035 - q[5] * 2751 + q[6] * 2106 + q[7] * 3513 - q[8] * 3857 + q[9] * 1380 - q[10] * 601 - q[11] * 4052 + q[12] * 4091 + q[13] * 201 - q[14] * 995 + q[15] * 3973) <= 49152 + 16 * m
    &&& -49152 - 16 * m <= 4096 * u[5] - (q[0] * 1380 + q[1] * 3857 + q[2] * 4052 - q[3] * 601 + q[4] * 201 - q[5] * 4091 - q[6] * 3973 - q[7] * 995 - q[8] * 1751 + q[9] * 3703 + q[10] * 3290 + q[11] * 2440 + q[12] * 3035 - q[13] * 2751 - q[14] * 2106 - q[15] * 3513) <= 49152 + 16 * m
    &&& -49152 - 16 * m <= -4096 * u[13] - (-995 * q[0] + q[1] * 3973 - q[2] * 3857 + q[3] * 1380 - q[4] * 3290 - q[5] * 2440 + q[6] * 201 - q[7] * 4091 + q[8] * 3513 - q[9] * 2106 + q[10] * 3703 + q[11] * 1751 + q[12] * 601 + q[13] * 4052 - q[14] * 3035 + q[15] * 2751) <= 49152 + 16 * m
    &&& -49152 - 16 * m <= 4096 * u[9] - (q[0] * 601 + q[1] * 4052 + q[2] * 2751 + q[3] * 3035 + q[4] * 3973 + q[5] * 995 + q[6] * 3857 - q[7] * 1380 + q[8] * 2440 - q[9] * 3290 + q[10] * 201 - q[11] * 4091 - q[12] * 2106 - q[13] * 3513 - q[14] * 3703 - q[15] * 1751) <= 49152 + 16 * m
    &&& -49152 - 16 * m <= -4096 * u[1] - (-201 * q[0] + q[1] * 4091 - q[2] * 995 + q[3] * 3973 - q[4] * 1751 + q[5] * 3703 - q[6] * 2440 + q[7] * 3290 - q[8] * 3035 + q[9] * 2751 - q[10] * 3513 + q[11] * 2106 - q[12] * 3857 + q[13] * 1380 - q[14] * 4052 + q[15] * 601) <= 49152 + 16 * m
}

/// All the outputs.
proof fn lemma_outputs(q: Seq<i64>, u4: Seq<i64>, u5: Seq<i64>, u6: Seq<i64>, u7: Seq<i64>, m: int)
    requires
        midway(q, u4, m),
        stage4(u4, u5),
        stage5(u5, u6),
        stage6(u6, u7),
        forall|p: int| 0 <= p < 16 ==> -m <= #[trigger] q[p] <= m,
    ensures
        outcome(q, u7, m),
{
    reveal(outcome);
    lemma_outputs_from0(q, u4, u5, u6, u7, m);
    lemma_outputs_from2(q, u4, u5, u6, u7, m);
    lemma_outputs_from4(q, u4, u5, u6, u7, m);
    lemma_outputs_from6(q, u4, u5, u6, u7, m);
    lemma_outputs_from8(q, u4, u5, u6, u7, m);
    lemma_outputs_from10(q, u4, u5, u6, u7, m);
    lemma_outputs_from12(q, u4, u5, u6, u7, m);
    lemma_outputs_from14(q, u4, u5, u6, u7, m);
}

/// All the stages, from the first to the last.
proof fn lemma_stages(q: Seq<i64>, r: int, m: int)
    requires
        q.len() == 64,
        1 <= r,
        0 <= m <= 0x10_0000_0000,
        40 * m + 40 < p2(r - 1),
        forall|p: int| 0 <= p < 16 ==> -m <= #[trigger] q[p] <= m,
    ensures
        ({
            let u = partial_network(q, Network::Adst16, 4, 7, r);
            &&& u.len() == 64
            &&& outcome(q, u, m)
            &&& forall|p: int| 0 <= p < 16 ==> -0x1000_0000_0000_0000 <= #[trigger] u[p] <= 0x1000_0000_0000_0000
        }),
{
    let net = Network::Adst16;
    lemma_p2_values();
    reveal_with_fuel(partial_network, 2);
    lemma_stage0(q, r, m);
    let u1 = partial_stage(q, net, 0, 8, r);
    assert(u1 == partial_network(q, net, 4, 1, r));
    lemma_stage1(u1, r, 2 * m + 1);
    let u2 = partial_stage(u1, net, 1, 8, r);
    assert(u2 == partial_network(q, net, 4, 2, r));
    lemma_stage2(u2, r, 4 * m + 2);
    let u3 = partial_stage(u2, net, 2, 4, r);
    assert(u3 == partial_network(q, net, 4, 3, r));
    lemma_stage3(u3, r, 6 * m + 4);
    let u4 = partial_stage(u3, net, 3, 8, r);
    assert(u4 == partial_network(q, net, 4, 4, r));
    lemma_stage4(u4, r, 12 * m + 8);
    let u5 = partial_stage(u4, net, 4, 4, r);
    assert(u5 == partial_network(q, net, 4, 5, r));
    lemma_stage5(u5, r, 18 * m + 13);
    let u6 = partial_stage(u5, net, 5, 8, r);
    assert(u6 == partial_network(q, net, 4, 6, r));
    lemma_stage6(u6, r, 36 * m + 26);
    let u7 = partial_stage(u6, net, 6, 4, r);
    assert(u7 == partial_network(q, net, 4, 7, r));
    lemma_midway(q, u1, u2, u3, u4, m);
    lemma_outputs(q, u4, u5, u6, u7, m);
}

/// The sum of sixteen values, each times the sine of its wave at place `k`.
pub open spec fn sines16(t: Seq<i64>, k: int) -> int {
    t[0] * sin(2 * (2 * k + 1)) + t[1] * sin(6 * (2 * k + 1)) + t[2] * sin(10 * (2 * k + 1)) + t[3] * sin(14 * (2 * k + 1)) + t[4] * sin(18 * (2 * k + 1)) + t[5] * sin(22 * (2 * k + 1)) + t[6] * sin(26 * (2 * k + 1)) + t[7] * sin(30 * (2 * k + 1)) + t[8] * sin(34 * (2 * k + 1)) + t[9] * sin(38 * (2 * k + 1)) + t[10] * sin(42 * (2 * k + 1)) + t[11] * sin(46 * (2 * k + 1)) + t[12] * sin(50 * (2 * k + 1)) + t[13] * sin(54 * (2 * k + 1)) + t[14] * sin(58 * (2 * k + 1)) + t[15] * sin(62 * (2 * k + 1))
}

/// The sum with the waves put in.
proof fn lemma_sines16(t: Seq<i64>, k: int, c0: int, c1: int, c2: int, c3: int, c4: int, c5: int, c6: int, c7: int, c8: int, c9: int, c10: int, c11: int, c12: int, c13: int, c14: int, c15: int)
    requires
        sin(2 * (2 * k + 1)) == c0,
        sin(6 * (2 * k + 1)) == c1,
        sin(10 * (2 * k + 1)) == c2,
        sin(14 * (2 * k + 1)) == c3,
        sin(18 * (2 * k + 1)) == c4,
        sin(22 * (2 * k + 1)) == c5,
        sin(26 * (2 * k + 1)) == c6,
        sin(30 * (2 * k + 1)) == c7,
        sin(34 * (2 * k + 1)) == c8,
        sin(38 * (2 * k + 1)) == c9,
        sin(42 * (2 * k + 1)) == c10,
        sin(46 * (2 * k + 1)) == c11,
        sin(50 * (2 * k + 1)) == c12,
        sin(54 * (2 * k + 1)) == c13,
        sin(58 * (2 * k + 1)) == c14,
        sin(62 * (2 * k + 1)) == c15,
    ensures
        sines16(t, k) == t[0] * c0 + t[1] * c1 + t[2] * c2 + t[3] * c3 + t[4] * c4 + t[5] * c5 + t[6] * c6 + t[7] * c7 + t[8] * c8 + t[9] * c9 + t[10] * c10 + t[11] * c11 + t[12] * c12 + t[13] * c13 + t[14] * c14 + t[15] * c15,
{
}

/// The sums at some places.
proof fn lemma_sines16_from0(t: Seq<i64>, k: int)
    requires
        0 <= k < 4,
    ensures
        k == 0 ==> sines16(t, k) == t[0] * 201 + t[1] * 601 + t[2] * 995 + t[3] * 1380 + t[4] * 1751 + t[5] * 2106 + t[6] * 2440 + t[7] * 2751 + t[8] * 3035 + t[9] * 3290 + t[10] * 3513 + t[11] * 3703 + t[12] * 3857 + t[13] * 3973 + t[14] * 4052 + t[15] * 4091,
        k == 1 ==> sines16(t, k) == t[0] * 601 + t[1] * 1751 + t[2] * 2751 + t[3] * 3513 + t[4] * 3973 + t[5] * 4091 + t[6] * 3857 + t[7] * 3290 + t[8] * 2440 + t[9] * 1380 + t[10] * 201 - t[11] * 995 - t[12] * 2106 - t[13] * 3035 - t[14] * 3703 - t[15] * 4052,
        k == 2 ==> sines16(t, k) == t[0] * 995 + t[1] * 2751 + t[2] * 3857 + t[3] * 4052 + t[4] * 3290 + t[5] * 1751 - t[6] * 201 - t[7] * 2106 - t[8] * 3513 - t[9] * 4091 - t[10] * 3703 - t[11] * 2440 - t[12] * 601 + t[13] * 1380 + t[14] * 3035 + t[15] * 3973,
        k == 3 ==> sines16(t, k) == t[0] * 1380 + t[1] * 3513 + t[2] * 4052 + t[3] * 2751 + t[4] * 201 - t[5] * 2440 - t[6] * 3973 - t[7] * 3703 - t[8] * 1751 + t[9] * 995 + t[10] * 3290 + t[11] * 4091 + t[12] * 3035 + t[13] * 601 - t[14] * 2106 - t[15] * 3857,
{
    reveal(cos);
    if k == 0 {
        lemma_sines16(t, k, 201, 601, 995, 1380, 1751, 2106, 2440, 2751, 3035, 3290, 3513, 3703, 3857, 3973, 4052, 4091);
    } else if k == 1 {
        lemma_sines16(t, k, 601, 1751, 2751, 3513, 3973, 4091, 3857, 3290, 2440, 1380, 201, -995, -2106, -3035, -3703, -4052);
    } else if k == 2 {
        lemma_sines16(t, k, 995, 2751, 3857, 4052, 3290, 1751, -201, -2106, -3513, -4091, -3703, -2440, -601, 1380, 3035, 3973);
    } else if k == 3 {
        lemma_sines16(t, k, 1380, 3513, 4052, 2751, 201, -2440, -3973, -3703, -1751, 995, 3290, 4091, 3035, 601, -2106, -3857);
    }
}

/// The sums at some places.
proof fn lemma_sines16_from4(t: Seq<i64>, k: int)
    requires
        4 <= k < 8,
    ensures
        k == 4 ==> sines16(t, k) == t[0] * 1751 + t[1] * 3973 + t[2] * 3290 + t[3] * 201 - t[4] * 3035 - t[5] * 4052 - t[6] * 2106 + t[7] * 1380 + t[8] * 3857 + t[9] * 3513 + t[10] * 601 - t[11] * 2751 - t[12] * 4091 - t[13] * 2440 + t[14] * 995 + t[15] * 3703,
        k == 5 ==> sines16(t, k) == t[0] * 2106 + t[1] * 4091 + t[2] * 1751 - t[3] * 2440 - t[4] * 4052 - t[5] * 1380 + t[6] * 2751 + t[7] * 3973 + t[8] * 995 - t[9] * 3035 - t[10] * 3857 - t[11] * 601 + t[12] * 3290 + t[13] * 3703 + t[14] * 201 - t[15] * 3513,
        k == 6 ==> sines16(t, k) == t[0] * 2440 + t[1] * 3857 - t[2] * 201 - t[3] * 3973 - t[4] * 2106 + t[5] * 2751 + t[6] * 3703 - t[7] * 601 - t[8] * 4052 - t[9] * 1751 + t[10] * 3035 + t[11] * 3513 - t[12] * 995 - t[13] * 4091 - t[14] * 1380 + t[15] * 3290,
        k == 7 ==> sines16(t, k) == t[0] * 2751 + t[1] * 3290 - t[2] * 2106 - t[3] * 3703 + t[4] * 1380 + t[5] * 3973 - t[6] * 601 - t[7] * 4091 - t[8] * 201 + t[9] * 4052 + t[10] * 995 - t[11] * 3857 - t[12] * 1751 + t[13] * 3513 + t[14] * 2440 - t[15] * 3035,
{
    reveal(cos);
    if k == 4 {
        lemma_sines16(t, k, 1751, 3973, 3290, 201, -3035, -4052, -2106, 1380, 3857, 3513, 601, -2751, -4091, -2440, 995, 3703);
    } else if k == 5 {
        lemma_sines16(t, k, 2106, 4091, 1751, -2440, -4052, -1380, 2751, 3973, 995, -3035, -3857, -601, 3290, 3703, 201, -3513);
    } else if k == 6 {
        lemma_sines16(t, k, 2440, 3857, -201, -3973, -2106, 2751, 3703, -601, -4052, -1751, 3035, 3513, -995, -4091, -1380, 3290);
    } else if k == 7 {
        lemma_sines16(t, k, 2751, 3290, -2106, -3703, 1380, 3973, -601, -4091, -201, 4052, 995, -3857, -1751, 3513, 2440, -3035);
    }
}

/// The sums at some places.
proof fn lemma_sines16_from8(t: Seq<i64>, k: int)
    requires
        8 <= k < 12,
    ensures
        k == 8 ==> sines16(t, k) == t[0] * 3035 + t[1] * 2440 - t[2] * 3513 - t[3] * 1751 + t[4] * 3857 + t[5] * 995 - t[6] * 4052 - t[7] * 201 + t[8] * 4091 - t[9] * 601 - t[10] * 3973 + t[11] * 1380 + t[12] * 3703 - t[13] * 2106 - t[14] * 3290 + t[15] * 2751,
        k == 9 ==> sines16(t, k) == t[0] * 3290 + t[1] * 1380 - t[2] * 4091 + t[3] * 995 + t[4] * 3513 - t[5] * 3035 - t[6] * 1751 + t[7] * 4052 - t[8] * 601 - t[9] * 3703 + t[10] * 2751 + t[11] * 2106 - t[12] * 3973 + t[13] * 201 + t[14] * 3857 - t[15] * 2440,
        k == 10 ==> sines16(t, k) == t[0] * 3513 + t[1] * 201 - t[2] * 3703 + t[3] * 3290 + t[4] * 601 - t[5] * 3857 + t[6] * 3035 + t[7] * 995 - t[8] * 3973 + t[9] * 2751 + t[10] * 1380 - t[11] * 4052 + t[12] * 2440 + t[13] * 1751 - t[14] * 4091 + t[15] * 2106,
        k == 11 ==> sines16(t, k) == t[0] * 3703 - t[1] * 995 - t[2] * 2440 + t[3] * 4091 - t[4] * 2751 - t[5] * 601 + t[6] * 3513 - t[7] * 3857 + t[8] * 1380 + t[9] * 2106 - t[10] * 4052 + t[11] * 3035 + t[12] * 201 - t[13] * 3290 + t[14] * 3973 - t[15] * 1751,
{
    reveal(cos);
    if k == 8 {
        lemma_sines16(t, k, 3035, 2440, -3513, -1751, 3857, 995, -4052, -201, 4091, -601, -3973, 1380, 3703, -2106, -3290, 2751);
    } else if k == 9 {
        lemma_sines16(t, k, 3290, 1380, -4091, 995, 3513, -3035, -1751, 4052, -601, -3703, 2751, 2106, -3973, 201, 3857, -2440);
    } else if k == 10 {
        lemma_sines16(t, k, 3513, 201, -3703, 3290, 601, -3857, 3035, 995, -3973, 2751, 1380, -4052, 2440, 1751, -4091, 2106);
    } else if k == 11 {
        lemma_sines16(t, k, 3703, -995, -2440, 4091, -2751, -601, 3513, -3857, 1380, 2106, -4052, 3035, 201, -3290, 3973, -1751);
    }
}

/// The sums at some places.
proof fn lemma_sines16_from12(t: Seq<i64>, k: int)
    requires
        12 <= k < 16,
    ensures
        k == 12 ==> sines16(t, k) == t[0] * 3857 - t[1] * 2106 - t[2] * 601 + t[3] * 3035 - t[4] * 4091 + t[5] * 3290 - t[6] * 995 - t[7] * 1751 + t[8] * 3703 - t[9] * 3973 + t[10] * 2440 + t[11] * 201 - t[12] * 2751 + t[13] * 4052 - t[14] * 3513 + t[15] * 1380,
        k == 13 ==> sines16(t, k) == t[0] * 3973 - t[1] * 3035 + t[2] * 1380 + t[3] * 601 - t[4] * 2440 + t[5] * 3703 - t[6] * 4091 + t[7] * 3513 - t[8] * 2106 + t[9] * 201 + t[10] * 1751 - t[11] * 3290 + t[12] * 4052 - t[13] * 3857 + t[14] * 2751 - t[15] * 995,
        k == 14 ==> sines16(t, k) == t[0] * 4052 - t[1] * 3703 + t[2] * 3035 - t[3] * 2106 + t[4] * 995 + t[5] * 201 - t[6] * 1380 + t[7] * 2440 - t[8] * 3290 + t[9] * 3857 - t[10] * 4091 + t[11] * 3973 - t[12] * 3513 + t[13] * 2751 - t[14] * 1751 + t[15] * 601,
        k == 15 ==> sines16(t, k) == t[0] * 4091 - t[1] * 4052 + t[2] * 3973 - t[3] * 3857 + t[4] * 3703 - t[5] * 3513 + t[6] * 3290 - t[7] * 3035 + t[8] * 2751 - t[9] * 2440 + t[10] * 2106 - t[11] * 1751 + t[12] * 1380 - t[13] * 995 + t[14] * 601 - t[15] * 201,
{
    reveal(cos);
    if k == 12 {
        lemma_sines16(t, k, 3857, -2106, -601, 3035, -4091, 3290, -995, -1751, 3703, -3973, 2440, 201, -2751, 4052, -3513, 1380);
    } else if k == 13 {
        lemma_sines16(t, k, 3973, -3035, 1380, 601, -2440, 3703, -4091, 3513, -2106, 201, 1751, -3290, 4052, -3857, 2751, -995);
    } else if k == 14 {
        lemma_sines16(t, k, 4052, -3703, 3035, -2106, 995, 201, -1380, 2440, -3290, 3857, -4091, 3973, -3513, 2751, -1751, 601);
    } else if k == 15 {
        lemma_sines16(t, k, 4091, -4052, 3973, -3857, 3703, -3513, 3290, -3035, 2751, -2440, 2106, -1751, 1380, -995, 601, -201);
    }
}

/// Whether `q` is the input in the order of the network.
#[verifier::opaque]
spec fn ordered(t: Seq<i64>, q: Seq<i64>) -> bool {
    &&& q[0] == t[15]
    &&& q[1] == t[0]
    &&& q[2] == t[13]
    &&& q[3] == t[2]
    &&& q[4] == t[11]
    &&& q[5] == t[4]
    &&& q[6] == t[9]
    &&& q[7] == t[6]
    &&& q[8] == t[7]
    &&& q[9] == t[8]
    &&& q[10] == t[5]
    &&& q[11] == t[10]
    &&& q[12] == t[3]
    &&& q[13] == t[12]
    &&& q[14] == t[1]
    &&& q[15] == t[14]
}

/// Whether `v` is the outcome in the order of the places.
#[verifier::opaque]
spec fn put_out(u: Seq<i64>, v: Seq<i64>) -> bool {
    &&& v[0] == u[0]
    &&& v[1] == -u[8]
    &&& v[2] == u[12]
    &&& v[3] == -u[4]
    &&& v[4] == u[6]
    &&& v[5] == -u[14]
    &&& v[6] == u[10]
    &&& v[7] == -u[2]
    &&& v[8] == u[3]
    &&& v[9] == -u[11]
    &&& v[10] == u[15]
    &&& v[11] == -u[7]
    &&& v[12] == u[5]
    &&& v[13] == -u[13]
    &&& v[14] == u[9]
    &&& v[15] == -u[1]
}

/// The input is put in the order of the network.
proof fn lemma_order(t: Seq<i64>, m: int)
    requires
        t.len() == 64,
        forall|p: int| 0 <= p < 16 ==> -m <= #[trigger] t[p] <= m,
    ensures
        adst_order(t, 4).len() == 64,
        ordered(t, adst_order(t, 4)),
        forall|p: int| 0 <= p < 16 ==> -m <= #[trigger] adst_order(t, 4)[p] <= m,
{
    reveal(ordered);
    lemma_p2_values();
    assert forall|p: int| 0 <= p < 16 implies -m <= #[trigger] adst_order(t, 4)[p] <= m by {
        assert(0 <= adst_source(16, p) < 16);
    }
}

/// The outcome is put in the order of the places.
proof fn lemma_output(u: Seq<i64>)
    requires
        u.len() == 64,
        forall|p: int| 0 <= p < 16 ==> -0x1000_0000_0000_0000 <= #[trigger] u[p] <= 0x1000_0000_0000_0000,
    ensures
        put_out(u, adst_output(u, 4)),
{
    lemma_p2_values();
    assert(-0x1000_0000_0000_0000 <= u[0] <= 0x1000_0000_0000_0000 && -0x1000_0000_0000_0000 <= u[1] <= 0x1000_0000_0000_0000 && -0x1000_0000_0000_0000 <= u[2] <= 0x1000_0000_0000_0000 && -0x1000_0000_0000_0000 <= u[3] <= 0x1000_0000_0000_0000 && -0x1000_0000_0000_0000 <= u[4] <= 0x1000_0000_0000_0000 && -0x1000_0000_0000_0000 <= u[5] <= 0x1000_0000_0000_0000 && -0x1000_0000_0000_0000 <= u[6] <= 0x1000_0000_0000_0000 && -0x1000_0000_0000_0000 <= u[7] <= 0x1000_0000_0000_0000 && -0x1000_0000_0000_0000 <= u[8] <= 0x1000_0000_0000_0000 && -0x1000_0000_0000_0000 <= u[9] <= 0x1000_0000_0000_0000 && -0x1000_0000_0000_0000 <= u[10] <= 0x1000_0000_0000_0000 && -0x1000_0000_0000_0000 <= u[11] <= 0x1000_0000_0000_0000 && -0x1000_0000_0000_0000 <= u[12] <= 0x1000_0000_0000_0000 && -0x1000_0000_0000_0000 <= u[13] <= 0x1000_0000_0000_0000 && -0x1000_0000_0000_0000 <= u[14] <= 0x1000_0000_0000_0000 && -0x1000_0000_0000_0000 <= u[15] <= 0x1000_0000_0000_0000);
    reveal(put_out);
}

/// The sum that an output is.
proof fn lemma_place(t: Seq<i64>, q: Seq<i64>, u: Seq<i64>, v: Seq<i64>, m: int, k: int)
    requires
        ordered(t, q),
        outcome(q, u, m),
        put_out(u, v),
        0 <= k < 16,
    ensures
        -49152 - 16 * m <= 4096 * v[k] - sines16(t, k) <= 49152 + 16 * m,
{
    reveal(ordered);
    reveal(outcome);
    reveal(put_out);
    if k < 4 {
        lemma_sines16_from0(t, k);
    } else if k < 8 {
        lemma_sines16_from4(t, k);
    } else if k < 12 {
        lemma_sines16_from8(t, k);
    } else {
        lemma_sines16_from12(t, k);
    }
}

/// The inverse ADST of sixteen values: each output is the sum of the values times the sines
/// of their waves at the output's place, to within 12 and 16 parts in 4096 of the greatest.
pub proof fn lemma_sixteen_point_adst(t: Seq<i64>, r: int, m: int, k: int)
    requires
        t.len() == 64,
        1 <= r,
        0 <= m <= 0x10_0000_0000,
        40 * m + 40 < p2(r - 1),
        forall|p: int| 0 <= p < 16 ==> -m <= #[trigger] t[p] <= m,
        0 <= k < 16,
    ensures
        -49152 - 16 * m <= 4096 * transformed(t, Kind::Adst, 4, r)[k] - sines16(t, k) <= 49152 + 16 * m,
{
    let q = adst_order(t, 4);
    lemma_order(t, m);
    lemma_stages(q, r, m);
    let u = through_network(q, Network::Adst16, 4, r);
    lemma_output(u);
    lemma_place(t, q, u, adst_output(u, 4), m, k);
    reveal(transformed);
}

} // verus!
