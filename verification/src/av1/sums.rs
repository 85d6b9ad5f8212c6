//! Sums of eight waves: what the transforms of eight values add up to.
use super::butterfly::{adst_order, adst_output, adst_source, cos, dct_order, lemma_step_shape, lemma_steps_disjoint, partial_network, partial_stage, reversed, sin, stepped, through_network, transformed, Kind, Move, Network, DCT_MIN};
use crate::math::{lemma_p2_values, p2};
use vstd::prelude::*;

verus! {

/// Whether `y` is so many 4096ths, rounded.
pub open spec fn rounds(y: int, parts: int) -> bool {
    parts - 2048 <= 4096 * y <= parts + 2048
}

/// A step makes what it leaves of what stands at its positions, and keeps to them.
pub proof fn lemma_step_keeps_to_itself(u: Seq<i64>, t: Seq<i64>, s: Move, p: int, r: int)
    requires
        u.len() == 64,
        t.len() == 64,
        0 <= s.a < 64,
        0 <= s.b < 64,
        s.a != s.b,
        0 <= p < 64,
    ensures
        stepped(u, s, r).len() == 64,
        p != s.a && p != s.b ==> stepped(u, s, r)[p] == u[p],
        u[s.a] == t[s.a] && u[s.b] == t[s.b] ==> stepped(u, s, r)[s.a] == stepped(t, s, r)[s.a] && stepped(u, s, r)[s.b]
            == stepped(t, s, r)[s.b],
{
}

/// The steps of a stage work on their own positions: what a step leaves there, it makes of
/// what stood there before the stage.
pub proof fn lemma_pair(t: Seq<i64>, net: Network, stage: int, k: int, j: int, r: int)
    requires
        t.len() == 64,
        0 <= stage < net.depth(),
        0 <= k <= net.len(stage),
        0 <= j < net.len(stage),
    ensures
        ({
            let u = partial_stage(t, net, stage, k, r);
            let s = net.step(stage, j);
            let v = if j < k {
                stepped(t, s, r)
            } else {
                t
            };
            u.len() == 64 && u[s.a] == v[s.a] && u[s.b] == v[s.b]
        }),
    decreases k,
{
    lemma_step_shape(net, stage, j);
    if k > 0 {
        let (s, w) = (net.step(stage, j), net.step(stage, k - 1));
        lemma_step_shape(net, stage, k - 1);
        lemma_pair(t, net, stage, k - 1, j, r);
        let before = partial_stage(t, net, stage, k - 1, r);
        lemma_step_keeps_to_itself(before, t, w, s.a, r);
        lemma_step_keeps_to_itself(before, t, w, s.b, r);
        if j < k - 1 {
            lemma_steps_disjoint(net, stage, j, k - 1);
        } else if j > k - 1 {
            lemma_steps_disjoint(net, stage, k - 1, j);
        }
    }
}

/// A position that no step of a stage works on keeps its value.
pub proof fn lemma_rest(t: Seq<i64>, net: Network, stage: int, k: int, p: int, r: int)
    requires
        t.len() == 64,
        0 <= stage < net.depth(),
        0 <= k <= net.len(stage),
        0 <= p < 64,
        forall|j: int|
            0 <= j < net.len(stage) ==> (#[trigger] net.step(stage, j)).a != p && net.step(stage, j).b != p,
    ensures
        partial_stage(t, net, stage, k, r).len() == 64,
        partial_stage(t, net, stage, k, r)[p] == t[p],
    decreases k,
{
    if k > 0 {
        lemma_rest(t, net, stage, k - 1, p, r);
        lemma_step_shape(net, stage, k - 1);
        let before = partial_stage(t, net, stage, k - 1, r);
        lemma_step_keeps_to_itself(before, t, net.step(stage, k - 1), p, r);
    }
}

/// What a rotation leaves.
pub proof fn lemma_turn(t: Seq<i64>, net: Network, stage: int, j: int, r: int, c: int, s: int)
    requires
        t.len() == 64,
        0 <= stage < net.depth(),
        0 <= j < net.len(stage),
        -0x1000_0000_0000 <= t[net.step(stage, j).a] <= 0x1000_0000_0000,
        -0x1000_0000_0000 <= t[net.step(stage, j).b] <= 0x1000_0000_0000,
        net.step(stage, j).rotation,
        cos(net.step(stage, j).angle) == c,
        sin(net.step(stage, j).angle) == s,
        -4096 <= c <= 4096,
        -4096 <= s <= 4096,
    ensures
        ({
            let u = partial_stage(t, net, stage, net.len(stage), r);
            let w = net.step(stage, j);
            let (p, q) = if w.flip {
                (w.b, w.a)
            } else {
                (w.a, w.b)
            };
            u.len() == 64 && rounds(u[p] as int, t[w.a] * c - t[w.b] * s) && rounds(u[q] as int, t[w.a] * s + t[w.b] * c)
        }),
{
    lemma_pair(t, net, stage, net.len(stage), j, r);
    lemma_step_shape(net, stage, j);
    lemma_p2_values();
    let w = net.step(stage, j);
    let (x, y) = (t[w.a] as int, t[w.b] as int);
    assert(-0x1000_0000_0000_0000 < x * c < 0x1000_0000_0000_0000 && -0x1000_0000_0000_0000 < x * s < 0x1000_0000_0000_0000
        && -0x1000_0000_0000_0000 < y * c < 0x1000_0000_0000_0000 && -0x1000_0000_0000_0000 < y * s < 0x1000_0000_0000_0000)
        by (nonlinear_arith)
        requires
            -0x1000_0000_0000 <= x <= 0x1000_0000_0000,
            -0x1000_0000_0000 <= y <= 0x1000_0000_0000,
            -4096 <= c <= 4096,
            -4096 <= s <= 4096,
    ;
}

/// What a Hadamard rotation leaves, where nothing is cut off.
pub proof fn lemma_sum(t: Seq<i64>, net: Network, stage: int, j: int, r: int)
    requires
        t.len() == 64,
        0 <= stage < net.depth(),
        0 <= j < net.len(stage),
        1 <= r,
        !net.step(stage, j).rotation,
        -p2(r - 1) <= t[net.step(stage, j).a] + t[net.step(stage, j).b] < p2(r - 1),
        -p2(r - 1) <= t[net.step(stage, j).a] - t[net.step(stage, j).b] < p2(r - 1),
        -p2(r - 1) < t[net.step(stage, j).b] - t[net.step(stage, j).a] < p2(r - 1),
        -0x1000_0000_0000 <= t[net.step(stage, j).a] <= 0x1000_0000_0000,
        -0x1000_0000_0000 <= t[net.step(stage, j).b] <= 0x1000_0000_0000,
    ensures
        ({
            let u = partial_stage(t, net, stage, net.len(stage), r);
            let w = net.step(stage, j);
            &&& u.len() == 64
            &&& u[w.a] == (if w.flip {
                t[w.b] - t[w.a]
            } else {
                t[w.a] + t[w.b]
            })
            &&& u[w.b] == (if w.flip {
                t[w.a] + t[w.b]
            } else {
                t[w.a] - t[w.b]
            })
        }),
{
    lemma_pair(t, net, stage, net.len(stage), j, r);
    lemma_step_shape(net, stage, j);
}

/// Stage 0 of the ADST of eight values, in whole numbers.
#[verifier::opaque]
spec fn adst8_stage0(q: Seq<i64>, u1: Seq<i64>) -> bool {
    &&& rounds(u1[1] as int, q[0] * 401 - q[1] * 4076)
    &&& rounds(u1[0] as int, q[0] * 4076 + q[1] * 401)
    &&& rounds(u1[3] as int, q[2] * 1931 - q[3] * 3612)
    &&& rounds(u1[2] as int, q[2] * 3612 + q[3] * 1931)
    &&& rounds(u1[5] as int, q[4] * 3166 - q[5] * 2598)
    &&& rounds(u1[4] as int, q[4] * 2598 + q[5] * 3166)
    &&& rounds(u1[7] as int, q[6] * 3920 - q[7] * 1189)
    &&& rounds(u1[6] as int, q[6] * 1189 + q[7] * 3920)
}

/// Stage 0 of the ADST of eight values does as it should.
proof fn lemma_adst8_stage0(t: Seq<i64>, r: int, m: int)
    requires
        t.len() == 64,
        forall|p: int| 0 <= p < 8 ==> -m <= #[trigger] t[p] <= m,
        1 <= r,
        0 <= m <= 0x1000_0000_0000,
    ensures
        ({
            let u = partial_stage(t, Network::Adst8, 0, 4, r);
            &&& u.len() == 64
            &&& adst8_stage0(t, u)
            &&& forall|p: int| 0 <= p < 8 ==> -3 * m - 1 <= 2 * #[trigger] u[p] <= 3 * m + 1
        }),
{
    let net = Network::Adst8;
    assert(-m <= t[0] <= m && -m <= t[1] <= m && -m <= t[2] <= m && -m <= t[3] <= m && -m <= t[4] <= m && -m <= t[5] <= m && -m <= t[6] <= m && -m <= t[7] <= m);
    reveal(adst8_stage0);
    reveal(cos);
    lemma_turn(t, net, 0, 0, r, 401, 4076);
    lemma_turn(t, net, 0, 1, r, 1931, 3612);
    lemma_turn(t, net, 0, 2, r, 3166, 2598);
    lemma_turn(t, net, 0, 3, r, 3920, 1189);
    let u = partial_stage(t, net, 0, 4, r);
    assert(-3 * m - 1 <= 2 * u[0] <= 3 * m + 1 && -3 * m - 1 <= 2 * u[1] <= 3 * m + 1 && -3 * m - 1 <= 2 * u[2] <= 3 * m + 1 && -3 * m - 1 <= 2 * u[3] <= 3 * m + 1 && -3 * m - 1 <= 2 * u[4] <= 3 * m + 1 && -3 * m - 1 <= 2 * u[5] <= 3 * m + 1 && -3 * m - 1 <= 2 * u[6] <= 3 * m + 1 && -3 * m - 1 <= 2 * u[7] <= 3 * m + 1);
}

/// Stage 1 of the ADST of eight values, in whole numbers.
#[verifier::opaque]
spec fn adst8_stage1(u1: Seq<i64>, u2: Seq<i64>) -> bool {
    &&& u2[0] == u1[0] + u1[4]
    &&& u2[4] == u1[0] - u1[4]
    &&& u2[1] == u1[1] + u1[5]
    &&& u2[5] == u1[1] - u1[5]
    &&& u2[2] == u1[2] + u1[6]
    &&& u2[6] == u1[2] - u1[6]
    &&& u2[3] == u1[3] + u1[7]
    &&& u2[7] == u1[3] - u1[7]
}

/// Stage 1 of the ADST of eight values does as it should.
proof fn lemma_adst8_stage1(t: Seq<i64>, r: int, m: int)
    requires
        t.len() == 64,
        forall|p: int| 0 <= p < 8 ==> -m <= #[trigger] t[p] <= m,
        1 <= r,
        0 <= m <= 0x1000_0000_0000,
        2 * m < p2(r - 1),
    ensures
        ({
            let u = partial_stage(t, Network::Adst8, 1, 4, r);
            &&& u.len() == 64
            &&& adst8_stage1(t, u)
            &&& forall|p: int| 0 <= p < 8 ==> -2 * m <= #[trigger] u[p] <= 2 * m
        }),
{
    let net = Network::Adst8;
    assert(-m <= t[0] <= m && -m <= t[1] <= m && -m <= t[2] <= m && -m <= t[3] <= m && -m <= t[4] <= m && -m <= t[5] <= m && -m <= t[6] <= m && -m <= t[7] <= m);
    reveal(adst8_stage1);
    lemma_sum(t, net, 1, 0, r);
    lemma_sum(t, net, 1, 1, r);
    lemma_sum(t, net, 1, 2, r);
    lemma_sum(t, net, 1, 3, r);
    let u = partial_stage(t, net, 1, 4, r);
    assert(-2 * m <= u[0] <= 2 * m && -2 * m <= u[1] <= 2 * m && -2 * m <= u[2] <= 2 * m && -2 * m <= u[3] <= 2 * m && -2 * m <= u[4] <= 2 * m && -2 * m <= u[5] <= 2 * m && -2 * m <= u[6] <= 2 * m && -2 * m <= u[7] <= 2 * m);
}

/// Stage 2 of the ADST of eight values, in whole numbers.
#[verifier::opaque]
spec fn adst8_stage2(u2: Seq<i64>, u3: Seq<i64>) -> bool {
    &&& rounds(u3[5] as int, u2[4] * 1567 - u2[5] * 3784)
    &&& rounds(u3[4] as int, u2[4] * 3784 + u2[5] * 1567)
    &&& rounds(u3[6] as int, u2[7] * 3784 - u2[6] * 1567)
    &&& rounds(u3[7] as int, u2[7] * 1567 + u2[6] * 3784)
    &&& u3[0] == u2[0]
    &&& u3[1] == u2[1]
    &&& u3[2] == u2[2]
    &&& u3[3] == u2[3]
}

/// Stage 2 of the ADST of eight values does as it should.
proof fn lemma_adst8_stage2(t: Seq<i64>, r: int, m: int)
    requires
        t.len() == 64,
        forall|p: int| 0 <= p < 8 ==> -m <= #[trigger] t[p] <= m,
        1 <= r,
        0 <= m <= 0x1000_0000_0000,
    ensures
        ({
            let u = partial_stage(t, Network::Adst8, 2, 2, r);
            &&& u.len() == 64
            &&& adst8_stage2(t, u)
            &&& forall|p: int| 0 <= p < 8 ==> -3 * m - 1 <= 2 * #[trigger] u[p] <= 3 * m + 1
        }),
{
    let net = Network::Adst8;
    assert(-m <= t[0] <= m && -m <= t[1] <= m && -m <= t[2] <= m && -m <= t[3] <= m && -m <= t[4] <= m && -m <= t[5] <= m && -m <= t[6] <= m && -m <= t[7] <= m);
    reveal(adst8_stage2);
    reveal(cos);
    lemma_turn(t, net, 2, 0, r, 1567, 3784);
    lemma_turn(t, net, 2, 1, r, 3784, 1567);
    lemma_rest(t, net, 2, 2, 0, r);
    lemma_rest(t, net, 2, 2, 1, r);
    lemma_rest(t, net, 2, 2, 2, r);
    lemma_rest(t, net, 2, 2, 3, r);
    let u = partial_stage(t, net, 2, 2, r);
    assert(-3 * m - 1 <= 2 * u[0] <= 3 * m + 1 && -3 * m - 1 <= 2 * u[1] <= 3 * m + 1 && -3 * m - 1 <= 2 * u[2] <= 3 * m + 1 && -3 * m - 1 <= 2 * u[3] <= 3 * m + 1 && -3 * m - 1 <= 2 * u[4] <= 3 * m + 1 && -3 * m - 1 <= 2 * u[5] <= 3 * m + 1 && -3 * m - 1 <= 2 * u[6] <= 3 * m + 1 && -3 * m - 1 <= 2 * u[7] <= 3 * m + 1);
}

/// Stage 3 of the ADST of eight values, in whole numbers.
#[verifier::opaque]
spec fn adst8_stage3(u3: Seq<i64>, u4: Seq<i64>) -> bool {
    &&& u4[0] == u3[0] + u3[2]
    &&& u4[2] == u3[0] - u3[2]
    &&& u4[4] == u3[4] + u3[6]
    &&& u4[6] == u3[4] - u3[6]
    &&& u4[1] == u3[1] + u3[3]
    &&& u4[3] == u3[1] - u3[3]
    &&& u4[5] == u3[5] + u3[7]
    &&& u4[7] == u3[5] - u3[7]
}

/// Stage 3 of the ADST of eight values does as it should.
proof fn lemma_adst8_stage3(t: Seq<i64>, r: int, m: int)
    requires
        t.len() == 64,
        forall|p: int| 0 <= p < 8 ==> -m <= #[trigger] t[p] <= m,
        1 <= r,
        0 <= m <= 0x1000_0000_0000,
        2 * m < p2(r - 1),
    ensures
        ({
            let u = partial_stage(t, Network::Adst8, 3, 4, r);
            &&& u.len() == 64
            &&& adst8_stage3(t, u)
            &&& forall|p: int| 0 <= p < 8 ==> -2 * m <= #[trigger] u[p] <= 2 * m
        }),
{
    let net = Network::Adst8;
    assert(-m <= t[0] <= m && -m <= t[1] <= m && -m <= t[2] <= m && -m <= t[3] <= m && -m <= t[4] <= m && -m <= t[5] <= m && -m <= t[6] <= m && -m <= t[7] <= m);
    reveal(adst8_stage3);
    lemma_sum(t, net, 3, 0, r);
    lemma_sum(t, net, 3, 1, r);
    lemma_sum(t, net, 3, 2, r);
    lemma_sum(t, net, 3, 3, r);
    let u = partial_stage(t, net, 3, 4, r);
    assert(-2 * m <= u[0] <= 2 * m && -2 * m <= u[1] <= 2 * m && -2 * m <= u[2] <= 2 * m && -2 * m <= u[3] <= 2 * m && -2 * m <= u[4] <= 2 * m && -2 * m <= u[5] <= 2 * m && -2 * m <= u[6] <= 2 * m && -2 * m <= u[7] <= 2 * m);
}

/// Stage 4 of the ADST of eight values, in whole numbers.
#[verifier::opaque]
spec fn adst8_stage4(u4: Seq<i64>, u5: Seq<i64>) -> bool {
    &&& rounds(u5[3] as int, u4[2] * 2896 - u4[3] * 2896)
    &&& rounds(u5[2] as int, u4[2] * 2896 + u4[3] * 2896)
    &&& rounds(u5[7] as int, u4[6] * 2896 - u4[7] * 2896)
    &&& rounds(u5[6] as int, u4[6] * 2896 + u4[7] * 2896)
    &&& u5[0] == u4[0]
    &&& u5[1] == u4[1]
    &&& u5[4] == u4[4]
    &&& u5[5] == u4[5]
}

/// Stage 4 of the ADST of eight values does as it should.
proof fn lemma_adst8_stage4(t: Seq<i64>, r: int, m: int)
    requires
        t.len() == 64,
        forall|p: int| 0 <= p < 8 ==> -m <= #[trigger] t[p] <= m,
        1 <= r,
        0 <= m <= 0x1000_0000_0000,
    ensures
        ({
            let u = partial_stage(t, Network::Adst8, 4, 2, r);
            &&& u.len() == 64
            &&& adst8_stage4(t, u)
            &&& forall|p: int| 0 <= p < 8 ==> -3 * m - 1 <= 2 * #[trigger] u[p] <= 3 * m + 1
        }),
{
    let net = Network::Adst8;
    assert(-m <= t[0] <= m && -m <= t[1] <= m && -m <= t[2] <= m && -m <= t[3] <= m && -m <= t[4] <= m && -m <= t[5] <= m && -m <= t[6] <= m && -m <= t[7] <= m);
    reveal(adst8_stage4);
    reveal(cos);
    lemma_turn(t, net, 4, 0, r, 2896, 2896);
    lemma_turn(t, net, 4, 1, r, 2896, 2896);
    lemma_rest(t, net, 4, 2, 0, r);
    lemma_rest(t, net, 4, 2, 1, r);
    lemma_rest(t, net, 4, 2, 4, r);
    lemma_rest(t, net, 4, 2, 5, r);
    let u = partial_stage(t, net, 4, 2, r);
    assert(-3 * m - 1 <= 2 * u[0] <= 3 * m + 1 && -3 * m - 1 <= 2 * u[1] <= 3 * m + 1 && -3 * m - 1 <= 2 * u[2] <= 3 * m + 1 && -3 * m - 1 <= 2 * u[3] <= 3 * m + 1 && -3 * m - 1 <= 2 * u[4] <= 3 * m + 1 && -3 * m - 1 <= 2 * u[5] <= 3 * m + 1 && -3 * m - 1 <= 2 * u[6] <= 3 * m + 1 && -3 * m - 1 <= 2 * u[7] <= 3 * m + 1);
}

/// The sum of eight values, each times the sine of its wave at place `i`.
pub open spec fn sines8(t: Seq<i64>, i: int) -> int {
    t[0] * sin(4 * (2 * i + 1)) + t[1] * sin(12 * (2 * i + 1)) + t[2] * sin(20 * (2 * i + 1)) + t[3] * sin(28 * (2 * i + 1)) + t[4] * sin(36 * (2 * i + 1)) + t[5] * sin(44 * (2 * i + 1)) + t[6] * sin(52 * (2 * i + 1)) + t[7] * sin(60 * (2 * i + 1))
}

/// The sum with the sines put in.
proof fn lemma_sines8(t: Seq<i64>, i: int, c0: int, c1: int, c2: int, c3: int, c4: int, c5: int, c6: int, c7: int)
    requires
        sin(4 * (2 * i + 1)) == c0,
        sin(12 * (2 * i + 1)) == c1,
        sin(20 * (2 * i + 1)) == c2,
        sin(28 * (2 * i + 1)) == c3,
        sin(36 * (2 * i + 1)) == c4,
        sin(44 * (2 * i + 1)) == c5,
        sin(52 * (2 * i + 1)) == c6,
        sin(60 * (2 * i + 1)) == c7,
    ensures
        sines8(t, i) == t[0] * c0 + t[1] * c1 + t[2] * c2 + t[3] * c3 + t[4] * c4 + t[5] * c5 + t[6] * c6 + t[7] * c7,
{
}

/// The outputs of the ADST of eight values, after all its stages.
proof fn lemma_adst8_outputs(q: Seq<i64>, u1: Seq<i64>, u2: Seq<i64>, u3: Seq<i64>, u4: Seq<i64>, u5: Seq<i64>, m: int)
    requires
        adst8_stage0(q, u1),
        adst8_stage1(u1, u2),
        adst8_stage2(u2, u3),
        adst8_stage3(u3, u4),
        adst8_stage4(u4, u5),
        forall|p: int| 0 <= p < 8 ==> -m <= #[trigger] q[p] <= m,
    ensures
        -24576 - 6 * m <= 4096 * u5[0] - (q[1] * 401 + q[6] * 1189 + q[3] * 1931 + q[4] * 2598 + q[5] * 3166 + q[2] * 3612 + q[7] * 3920 + q[0] * 4076) <= 24576 + 6 * m,
        -24576 - 6 * m <= -4096 * u5[4] - (q[1] * 1189 + q[6] * 3166 + q[3] * 4076 + q[4] * 3612 + q[5] * 1931 - q[2] * 401 - q[7] * 2598 - q[0] * 3920) <= 24576 + 6 * m,
        -24576 - 6 * m <= 4096 * u5[6] - (q[1] * 1931 + q[6] * 4076 + q[3] * 2598 - q[4] * 1189 - q[5] * 3920 - q[2] * 3166 + q[7] * 401 + q[0] * 3612) <= 24576 + 6 * m,
        -24576 - 6 * m <= -4096 * u5[2] - (q[1] * 2598 + q[6] * 3612 - q[3] * 1189 - q[4] * 4076 - q[5] * 401 + q[2] * 3920 + q[7] * 1931 - q[0] * 3166) <= 24576 + 6 * m,
        -24576 - 6 * m <= 4096 * u5[3] - (q[1] * 3166 + q[6] * 1931 - q[3] * 3920 - q[4] * 401 + q[5] * 4076 - q[2] * 1189 - q[7] * 3612 + q[0] * 2598) <= 24576 + 6 * m,
        -24576 - 6 * m <= -4096 * u5[7] - (q[1] * 3612 - q[6] * 401 - q[3] * 3166 + q[4] * 3920 - q[5] * 1189 - q[2] * 2598 + q[7] * 4076 - q[0] * 1931) <= 24576 + 6 * m,
        -24576 - 6 * m <= 4096 * u5[5] - (q[1] * 3920 - q[6] * 2598 + q[3] * 401 + q[4] * 1931 - q[5] * 3612 + q[2] * 4076 - q[7] * 3166 + q[0] * 1189) <= 24576 + 6 * m,
        -24576 - 6 * m <= -4096 * u5[1] - (q[1] * 4076 - q[6] * 3920 + q[3] * 3612 - q[4] * 3166 + q[5] * 2598 - q[2] * 1931 + q[7] * 1189 - q[0] * 401) <= 24576 + 6 * m,
{
    reveal(adst8_stage0);
    reveal(adst8_stage1);
    reveal(adst8_stage2);
    reveal(adst8_stage3);
    reveal(adst8_stage4);
    assert(-m <= q[0] <= m && -m <= q[1] <= m && -m <= q[2] <= m && -m <= q[3] <= m && -m <= q[4] <= m && -m <= q[5] <= m && -m <= q[6] <= m && -m <= q[7] <= m);
}

/// The network of the ADST of eight values, from its first stage to its last.
proof fn lemma_adst8_network(q: Seq<i64>, r: int, m: int)
    requires
        q.len() == 64,
        1 <= r,
        0 <= m <= 0x10_0000_0000,
        16 * m + 16 < p2(r - 1),
        forall|p: int| 0 <= p < 8 ==> -m <= #[trigger] q[p] <= m,
    ensures
        ({
            let u = through_network(q, Network::Adst8, 3, r);
            &&& u.len() == 64
            &&& -24576 - 6 * m <= 4096 * u[0] - (q[1] * 401 + q[6] * 1189 + q[3] * 1931 + q[4] * 2598 + q[5] * 3166 + q[2] * 3612 + q[7] * 3920 + q[0] * 4076) <= 24576 + 6 * m
            &&& -24576 - 6 * m <= -4096 * u[4] - (q[1] * 1189 + q[6] * 3166 + q[3] * 4076 + q[4] * 3612 + q[5] * 1931 - q[2] * 401 - q[7] * 2598 - q[0] * 3920) <= 24576 + 6 * m
            &&& -24576 - 6 * m <= 4096 * u[6] - (q[1] * 1931 + q[6] * 4076 + q[3] * 2598 - q[4] * 1189 - q[5] * 3920 - q[2] * 3166 + q[7] * 401 + q[0] * 3612) <= 24576 + 6 * m
            &&& -24576 - 6 * m <= -4096 * u[2] - (q[1] * 2598 + q[6] * 3612 - q[3] * 1189 - q[4] * 4076 - q[5] * 401 + q[2] * 3920 + q[7] * 1931 - q[0] * 3166) <= 24576 + 6 * m
            &&& -24576 - 6 * m <= 4096 * u[3] - (q[1] * 3166 + q[6] * 1931 - q[3] * 3920 - q[4] * 401 + q[5] * 4076 - q[2] * 1189 - q[7] * 3612 + q[0] * 2598) <= 24576 + 6 * m
            &&& -24576 - 6 * m <= -4096 * u[7] - (q[1] * 3612 - q[6] * 401 - q[3] * 3166 + q[4] * 3920 - q[5] * 1189 - q[2] * 2598 + q[7] * 4076 - q[0] * 1931) <= 24576 + 6 * m
            &&& -24576 - 6 * m <= 4096 * u[5] - (q[1] * 3920 - q[6] * 2598 + q[3] * 401 + q[4] * 1931 - q[5] * 3612 + q[2] * 4076 - q[7] * 3166 + q[0] * 1189) <= 24576 + 6 * m
            &&& -24576 - 6 * m <= -4096 * u[1] - (q[1] * 4076 - q[6] * 3920 + q[3] * 3612 - q[4] * 3166 + q[5] * 2598 - q[2] * 1931 + q[7] * 1189 - q[0] * 401) <= 24576 + 6 * m
        }),
{
    let net = Network::Adst8;
    assert(-m <= q[0] <= m && -m <= q[1] <= m && -m <= q[2] <= m && -m <= q[3] <= m && -m <= q[4] <= m && -m <= q[5] <= m && -m <= q[6] <= m && -m <= q[7] <= m);
    reveal_with_fuel(partial_network, 2);
    lemma_adst8_stage0(q, r, m);
    let u1 = partial_stage(q, net, 0, 4, r);
    assert(u1 == partial_network(q, net, 3, 1, r));
    lemma_adst8_stage1(u1, r, 2 * m + 1);
    let u2 = partial_stage(u1, net, 1, 4, r);
    assert(u2 == partial_network(q, net, 3, 2, r));
    lemma_adst8_stage2(u2, r, 4 * m + 2);
    let u3 = partial_stage(u2, net, 2, 2, r);
    assert(u3 == partial_network(q, net, 3, 3, r));
    lemma_adst8_stage3(u3, r, 6 * m + 4);
    let u4 = partial_stage(u3, net, 3, 4, r);
    assert(u4 == partial_network(q, net, 3, 4, r));
    lemma_adst8_stage4(u4, r, 12 * m + 8);
    let u5 = partial_stage(u4, net, 4, 2, r);
    assert(u5 == partial_network(q, net, 3, 5, r));
    lemma_adst8_outputs(q, u1, u2, u3, u4, u5, m);
}

/// The sums at each place.
proof fn lemma_sines8_by_place(t: Seq<i64>, i: int)
    requires
        0 <= i < 8,
    ensures
        i == 0 ==> sines8(t, i) == t[0] * 401 + t[1] * 1189 + t[2] * 1931 + t[3] * 2598 + t[4] * 3166 + t[5] * 3612 + t[6] * 3920 + t[7] * 4076,
        i == 1 ==> sines8(t, i) == t[0] * 1189 + t[1] * 3166 + t[2] * 4076 + t[3] * 3612 + t[4] * 1931 - t[5] * 401 - t[6] * 2598 - t[7] * 3920,
        i == 2 ==> sines8(t, i) == t[0] * 1931 + t[1] * 4076 + t[2] * 2598 - t[3] * 1189 - t[4] * 3920 - t[5] * 3166 + t[6] * 401 + t[7] * 3612,
        i == 3 ==> sines8(t, i) == t[0] * 2598 + t[1] * 3612 - t[2] * 1189 - t[3] * 4076 - t[4] * 401 + t[5] * 3920 + t[6] * 1931 - t[7] * 3166,
        i == 4 ==> sines8(t, i) == t[0] * 3166 + t[1] * 1931 - t[2] * 3920 - t[3] * 401 + t[4] * 4076 - t[5] * 1189 - t[6] * 3612 + t[7] * 2598,
        i == 5 ==> sines8(t, i) == t[0] * 3612 - t[1] * 401 - t[2] * 3166 + t[3] * 3920 - t[4] * 1189 - t[5] * 2598 + t[6] * 4076 - t[7] * 1931,
        i == 6 ==> sines8(t, i) == t[0] * 3920 - t[1] * 2598 + t[2] * 401 + t[3] * 1931 - t[4] * 3612 + t[5] * 4076 - t[6] * 3166 + t[7] * 1189,
        i == 7 ==> sines8(t, i) == t[0] * 4076 - t[1] * 3920 + t[2] * 3612 - t[3] * 3166 + t[4] * 2598 - t[5] * 1931 + t[6] * 1189 - t[7] * 401,
{
    reveal(cos);
    if i == 0 {
        lemma_sines8(t, i, 401, 1189, 1931, 2598, 3166, 3612, 3920, 4076);
    } else if i == 1 {
        lemma_sines8(t, i, 1189, 3166, 4076, 3612, 1931, -401, -2598, -3920);
    } else if i == 2 {
        lemma_sines8(t, i, 1931, 4076, 2598, -1189, -3920, -3166, 401, 3612);
    } else if i == 3 {
        lemma_sines8(t, i, 2598, 3612, -1189, -4076, -401, 3920, 1931, -3166);
    } else if i == 4 {
        lemma_sines8(t, i, 3166, 1931, -3920, -401, 4076, -1189, -3612, 2598);
    } else if i == 5 {
        lemma_sines8(t, i, 3612, -401, -3166, 3920, -1189, -2598, 4076, -1931);
    } else if i == 6 {
        lemma_sines8(t, i, 3920, -2598, 401, 1931, -3612, 4076, -3166, 1189);
    } else if i == 7 {
        lemma_sines8(t, i, 4076, -3920, 3612, -3166, 2598, -1931, 1189, -401);
    }
}

/// The inverse ADST of eight values: each output is the sum of the values times the sines of
/// their waves at the output's place, to within 6 and 6 parts in 4096 of the greatest.
pub proof fn lemma_eight_point_adst(t: Seq<i64>, r: int, m: int, i: int)
    requires
        t.len() == 64,
        1 <= r,
        0 <= m <= 0x10_0000_0000,
        16 * m + 16 < p2(r - 1),
        forall|p: int| 0 <= p < 8 ==> -m <= #[trigger] t[p] <= m,
        0 <= i < 8,
    ensures
        -24576 - 6 * m <= 4096 * transformed(t, Kind::Adst, 3, r)[i] - sines8(t, i) <= 24576 + 6 * m,
{
    reveal(transformed);
    lemma_p2_values();
    let q = adst_order(t, 3);
    assert(-m <= t[0] <= m && -m <= t[1] <= m && -m <= t[2] <= m && -m <= t[3] <= m && -m <= t[4] <= m && -m <= t[5] <= m && -m <= t[6] <= m && -m <= t[7] <= m);
    assert(q[0] == t[7] && q[1] == t[0] && q[2] == t[5] && q[3] == t[2] && q[4] == t[3] && q[5] == t[4] && q[6] == t[1] && q[7] == t[6]);
    assert forall|p: int| 0 <= p < 8 implies -m <= #[trigger] q[p] <= m by {
        assert(0 <= adst_source(8, p) < 8);
    }
    lemma_adst8_network(q, r, m);
    let u = through_network(q, Network::Adst8, 3, r);
    let v = adst_output(u, 3);
    assert(v[0] == u[0] && v[1] == -u[4] && v[2] == u[6] && v[3] == -u[2] && v[4] == u[3] && v[5] == -u[7] && v[6] == u[5] && v[7] == -u[1]);
    lemma_sines8_by_place(t, i);
}

/// Stages that do not run on so few values leave them.
pub proof fn lemma_idle(q: Seq<i64>, n: int, from: int, to: int, r: int)
    requires
        0 <= from <= to <= 30,
        forall|s: int| from <= s < to ==> #[trigger] DCT_MIN@[s] > n,
    ensures
        partial_network(q, Network::Dct, n, to, r) == partial_network(q, Network::Dct, n, from, r),
    decreases to,
{
    if to > from {
        lemma_idle(q, n, from, to - 1, r);
        assert(DCT_MIN@[to - 1] > n);
    }
}

/// Stage 6 of the DCT of eight values, in whole numbers.
#[verifier::opaque]
spec fn dct8_stage6(q: Seq<i64>, u1: Seq<i64>) -> bool {
    &&& rounds(u1[4] as int, q[4] * 799 - q[7] * 4017)
    &&& rounds(u1[7] as int, q[4] * 4017 + q[7] * 799)
    &&& rounds(u1[5] as int, q[5] * 3406 - q[6] * 2276)
    &&& rounds(u1[6] as int, q[5] * 2276 + q[6] * 3406)
    &&& u1[0] == q[0]
    &&& u1[1] == q[1]
    &&& u1[2] == q[2]
    &&& u1[3] == q[3]
}

/// Stage 6 of the DCT of eight values does as it should.
proof fn lemma_dct8_stage6(t: Seq<i64>, r: int, m: int)
    requires
        t.len() == 64,
        forall|p: int| 0 <= p < 8 ==> -m <= #[trigger] t[p] <= m,
        1 <= r,
        0 <= m <= 0x1000_0000_0000,
    ensures
        ({
            let u = partial_stage(t, Network::Dct, 6, 2, r);
            &&& u.len() == 64
            &&& dct8_stage6(t, u)
            &&& forall|p: int| 0 <= p < 8 ==> -3 * m - 1 <= 2 * #[trigger] u[p] <= 3 * m + 1
        }),
{
    let net = Network::Dct;
    assert(-m <= t[0] <= m && -m <= t[1] <= m && -m <= t[2] <= m && -m <= t[3] <= m && -m <= t[4] <= m && -m <= t[5] <= m && -m <= t[6] <= m && -m <= t[7] <= m);
    reveal(dct8_stage6);
    reveal(cos);
    lemma_turn(t, net, 6, 0, r, 799, 4017);
    lemma_turn(t, net, 6, 1, r, 3406, 2276);
    lemma_rest(t, net, 6, 2, 0, r);
    lemma_rest(t, net, 6, 2, 1, r);
    lemma_rest(t, net, 6, 2, 2, r);
    lemma_rest(t, net, 6, 2, 3, r);
    let u = partial_stage(t, net, 6, 2, r);
    assert(-3 * m - 1 <= 2 * u[0] <= 3 * m + 1 && -3 * m - 1 <= 2 * u[1] <= 3 * m + 1 && -3 * m - 1 <= 2 * u[2] <= 3 * m + 1 && -3 * m - 1 <= 2 * u[3] <= 3 * m + 1 && -3 * m - 1 <= 2 * u[4] <= 3 * m + 1 && -3 * m - 1 <= 2 * u[5] <= 3 * m + 1 && -3 * m - 1 <= 2 * u[6] <= 3 * m + 1 && -3 * m - 1 <= 2 * u[7] <= 3 * m + 1);
}

/// Stage 10 of the DCT of eight values, in whole numbers.
#[verifier::opaque]
spec fn dct8_stage10(u1: Seq<i64>, u2: Seq<i64>) -> bool {
    &&& rounds(u2[1] as int, u1[0] * 2896 - u1[1] * 2896)
    &&& rounds(u2[0] as int, u1[0] * 2896 + u1[1] * 2896)
    &&& rounds(u2[2] as int, u1[2] * 1567 - u1[3] * 3784)
    &&& rounds(u2[3] as int, u1[2] * 3784 + u1[3] * 1567)
    &&& u2[4] == u1[4]
    &&& u2[5] == u1[5]
    &&& u2[6] == u1[6]
    &&& u2[7] == u1[7]
}

/// Stage 10 of the DCT of eight values does as it should.
proof fn lemma_dct8_stage10(t: Seq<i64>, r: int, m: int)
    requires
        t.len() == 64,
        forall|p: int| 0 <= p < 8 ==> -m <= #[trigger] t[p] <= m,
        1 <= r,
        0 <= m <= 0x1000_0000_0000,
    ensures
        ({
            let u = partial_stage(t, Network::Dct, 10, 2, r);
            &&& u.len() == 64
            &&& dct8_stage10(t, u)
            &&& forall|p: int| 0 <= p < 8 ==> -3 * m - 1 <= 2 * #[trigger] u[p] <= 3 * m + 1
        }),
{
    let net = Network::Dct;
    assert(-m <= t[0] <= m && -m <= t[1] <= m && -m <= t[2] <= m && -m <= t[3] <= m && -m <= t[4] <= m && -m <= t[5] <= m && -m <= t[6] <= m && -m <= t[7] <= m);
    reveal(dct8_stage10);
    reveal(cos);
    lemma_turn(t, net, 10, 0, r, 2896, 2896);
    lemma_turn(t, net, 10, 1, r, 1567, 3784);
    lemma_rest(t, net, 10, 2, 4, r);
    lemma_rest(t, net, 10, 2, 5, r);
    lemma_rest(t, net, 10, 2, 6, r);
    lemma_rest(t, net, 10, 2, 7, r);
    let u = partial_stage(t, net, 10, 2, r);
    assert(-3 * m - 1 <= 2 * u[0] <= 3 * m + 1 && -3 * m - 1 <= 2 * u[1] <= 3 * m + 1 && -3 * m - 1 <= 2 * u[2] <= 3 * m + 1 && -3 * m - 1 <= 2 * u[3] <= 3 * m + 1 && -3 * m - 1 <= 2 * u[4] <= 3 * m + 1 && -3 * m - 1 <= 2 * u[5] <= 3 * m + 1 && -3 * m - 1 <= 2 * u[6] <= 3 * m + 1 && -3 * m - 1 <= 2 * u[7] <= 3 * m + 1);
}

/// Stage 11 of the DCT of eight values, in whole numbers.
#[verifier::opaque]
spec fn dct8_stage11(u2: Seq<i64>, u3: Seq<i64>) -> bool {
    &&& u3[4] == u2[4] + u2[5]
    &&& u3[5] == u2[4] - u2[5]
    &&& u3[6] == u2[7] - u2[6]
    &&& u3[7] == u2[6] + u2[7]
    &&& u3[0] == u2[0]
    &&& u3[1] == u2[1]
    &&& u3[2] == u2[2]
    &&& u3[3] == u2[3]
}

/// Stage 11 of the DCT of eight values does as it should.
proof fn lemma_dct8_stage11(t: Seq<i64>, r: int, m: int)
    requires
        t.len() == 64,
        forall|p: int| 0 <= p < 8 ==> -m <= #[trigger] t[p] <= m,
        1 <= r,
        0 <= m <= 0x1000_0000_0000,
        2 * m < p2(r - 1),
    ensures
        ({
            let u = partial_stage(t, Network::Dct, 11, 2, r);
            &&& u.len() == 64
            &&& dct8_stage11(t, u)
            &&& forall|p: int| 0 <= p < 8 ==> -2 * m <= #[trigger] u[p] <= 2 * m
        }),
{
    let net = Network::Dct;
    assert(-m <= t[0] <= m && -m <= t[1] <= m && -m <= t[2] <= m && -m <= t[3] <= m && -m <= t[4] <= m && -m <= t[5] <= m && -m <= t[6] <= m && -m <= t[7] <= m);
    reveal(dct8_stage11);
    lemma_sum(t, net, 11, 0, r);
    lemma_sum(t, net, 11, 1, r);
    lemma_rest(t, net, 11, 2, 0, r);
    lemma_rest(t, net, 11, 2, 1, r);
    lemma_rest(t, net, 11, 2, 2, r);
    lemma_rest(t, net, 11, 2, 3, r);
    let u = partial_stage(t, net, 11, 2, r);
    assert(-2 * m <= u[0] <= 2 * m && -2 * m <= u[1] <= 2 * m && -2 * m <= u[2] <= 2 * m && -2 * m <= u[3] <= 2 * m && -2 * m <= u[4] <= 2 * m && -2 * m <= u[5] <= 2 * m && -2 * m <= u[6] <= 2 * m && -2 * m <= u[7] <= 2 * m);
}

/// Stage 15 of the DCT of eight values, in whole numbers.
#[verifier::opaque]
spec fn dct8_stage15(u3: Seq<i64>, u4: Seq<i64>) -> bool {
    &&& u4[0] == u3[0] + u3[3]
    &&& u4[3] == u3[0] - u3[3]
    &&& u4[1] == u3[1] + u3[2]
    &&& u4[2] == u3[1] - u3[2]
    &&& u4[4] == u3[4]
    &&& u4[5] == u3[5]
    &&& u4[6] == u3[6]
    &&& u4[7] == u3[7]
}

/// Stage 15 of the DCT of eight values does as it should.
proof fn lemma_dct8_stage15(t: Seq<i64>, r: int, m: int)
    requires
        t.len() == 64,
        forall|p: int| 0 <= p < 8 ==> -m <= #[trigger] t[p] <= m,
        1 <= r,
        0 <= m <= 0x1000_0000_0000,
        2 * m < p2(r - 1),
    ensures
        ({
            let u = partial_stage(t, Network::Dct, 15, 2, r);
            &&& u.len() == 64
            &&& dct8_stage15(t, u)
            &&& forall|p: int| 0 <= p < 8 ==> -2 * m <= #[trigger] u[p] <= 2 * m
        }),
{
    let net = Network::Dct;
    assert(-m <= t[0] <= m && -m <= t[1] <= m && -m <= t[2] <= m && -m <= t[3] <= m && -m <= t[4] <= m && -m <= t[5] <= m && -m <= t[6] <= m && -m <= t[7] <= m);
    reveal(dct8_stage15);
    lemma_sum(t, net, 15, 0, r);
    lemma_sum(t, net, 15, 1, r);
    lemma_rest(t, net, 15, 2, 4, r);
    lemma_rest(t, net, 15, 2, 5, r);
    lemma_rest(t, net, 15, 2, 6, r);
    lemma_rest(t, net, 15, 2, 7, r);
    let u = partial_stage(t, net, 15, 2, r);
    assert(-2 * m <= u[0] <= 2 * m && -2 * m <= u[1] <= 2 * m && -2 * m <= u[2] <= 2 * m && -2 * m <= u[3] <= 2 * m && -2 * m <= u[4] <= 2 * m && -2 * m <= u[5] <= 2 * m && -2 * m <= u[6] <= 2 * m && -2 * m <= u[7] <= 2 * m);
}

/// Stage 16 of the DCT of eight values, in whole numbers.
#[verifier::opaque]
spec fn dct8_stage16(u4: Seq<i64>, u5: Seq<i64>) -> bool {
    &&& rounds(u5[5] as int, u4[6] * 2896 - u4[5] * 2896)
    &&& rounds(u5[6] as int, u4[6] * 2896 + u4[5] * 2896)
    &&& u5[0] == u4[0]
    &&& u5[1] == u4[1]
    &&& u5[2] == u4[2]
    &&& u5[3] == u4[3]
    &&& u5[4] == u4[4]
    &&& u5[7] == u4[7]
}

/// Stage 16 of the DCT of eight values does as it should.
proof fn lemma_dct8_stage16(t: Seq<i64>, r: int, m: int)
    requires
        t.len() == 64,
        forall|p: int| 0 <= p < 8 ==> -m <= #[trigger] t[p] <= m,
        1 <= r,
        0 <= m <= 0x1000_0000_0000,
    ensures
        ({
            let u = partial_stage(t, Network::Dct, 16, 1, r);
            &&& u.len() == 64
            &&& dct8_stage16(t, u)
            &&& forall|p: int| 0 <= p < 8 ==> -3 * m - 1 <= 2 * #[trigger] u[p] <= 3 * m + 1
        }),
{
    let net = Network::Dct;
    assert(-m <= t[0] <= m && -m <= t[1] <= m && -m <= t[2] <= m && -m <= t[3] <= m && -m <= t[4] <= m && -m <= t[5] <= m && -m <= t[6] <= m && -m <= t[7] <= m);
    reveal(dct8_stage16);
    reveal(cos);
    lemma_turn(t, net, 16, 0, r, 2896, 2896);
    lemma_rest(t, net, 16, 1, 0, r);
    lemma_rest(t, net, 16, 1, 1, r);
    lemma_rest(t, net, 16, 1, 2, r);
    lemma_rest(t, net, 16, 1, 3, r);
    lemma_rest(t, net, 16, 1, 4, r);
    lemma_rest(t, net, 16, 1, 7, r);
    let u = partial_stage(t, net, 16, 1, r);
    assert(-3 * m - 1 <= 2 * u[0] <= 3 * m + 1 && -3 * m - 1 <= 2 * u[1] <= 3 * m + 1 && -3 * m - 1 <= 2 * u[2] <= 3 * m + 1 && -3 * m - 1 <= 2 * u[3] <= 3 * m + 1 && -3 * m - 1 <= 2 * u[4] <= 3 * m + 1 && -3 * m - 1 <= 2 * u[5] <= 3 * m + 1 && -3 * m - 1 <= 2 * u[6] <= 3 * m + 1 && -3 * m - 1 <= 2 * u[7] <= 3 * m + 1);
}

/// Stage 20 of the DCT of eight values, in whole numbers.
#[verifier::opaque]
spec fn dct8_stage20(u5: Seq<i64>, u6: Seq<i64>) -> bool {
    &&& u6[0] == u5[0] + u5[7]
    &&& u6[7] == u5[0] - u5[7]
    &&& u6[1] == u5[1] + u5[6]
    &&& u6[6] == u5[1] - u5[6]
    &&& u6[2] == u5[2] + u5[5]
    &&& u6[5] == u5[2] - u5[5]
    &&& u6[3] == u5[3] + u5[4]
    &&& u6[4] == u5[3] - u5[4]
}

/// Stage 20 of the DCT of eight values does as it should.
proof fn lemma_dct8_stage20(t: Seq<i64>, r: int, m: int)
    requires
        t.len() == 64,
        forall|p: int| 0 <= p < 8 ==> -m <= #[trigger] t[p] <= m,
        1 <= r,
        0 <= m <= 0x1000_0000_0000,
        2 * m < p2(r - 1),
    ensures
        ({
            let u = partial_stage(t, Network::Dct, 20, 4, r);
            &&& u.len() == 64
            &&& dct8_stage20(t, u)
            &&& forall|p: int| 0 <= p < 8 ==> -2 * m <= #[trigger] u[p] <= 2 * m
        }),
{
    let net = Network::Dct;
    assert(-m <= t[0] <= m && -m <= t[1] <= m && -m <= t[2] <= m && -m <= t[3] <= m && -m <= t[4] <= m && -m <= t[5] <= m && -m <= t[6] <= m && -m <= t[7] <= m);
    reveal(dct8_stage20);
    lemma_sum(t, net, 20, 0, r);
    lemma_sum(t, net, 20, 1, r);
    lemma_sum(t, net, 20, 2, r);
    lemma_sum(t, net, 20, 3, r);
    let u = partial_stage(t, net, 20, 4, r);
    assert(-2 * m <= u[0] <= 2 * m && -2 * m <= u[1] <= 2 * m && -2 * m <= u[2] <= 2 * m && -2 * m <= u[3] <= 2 * m && -2 * m <= u[4] <= 2 * m && -2 * m <= u[5] <= 2 * m && -2 * m <= u[6] <= 2 * m && -2 * m <= u[7] <= 2 * m);
}

/// The outputs of the DCT of eight values, after all its stages.
proof fn lemma_dct8_outputs(q: Seq<i64>, u1: Seq<i64>, u2: Seq<i64>, u3: Seq<i64>, u4: Seq<i64>, u5: Seq<i64>, u6: Seq<i64>, m: int)
    requires
        dct8_stage6(q, u1),
        dct8_stage10(u1, u2),
        dct8_stage11(u2, u3),
        dct8_stage15(u3, u4),
        dct8_stage16(u4, u5),
        dct8_stage20(u5, u6),
        forall|p: int| 0 <= p < 8 ==> -m <= #[trigger] q[p] <= m,
    ensures
        -12288 - 3 * m <= 4096 * u6[0] - (q[0] * 2896 + q[4] * 4017 + q[2] * 3784 + q[6] * 3406 + q[1] * 2896 + q[5] * 2276 + q[3] * 1567 + q[7] * 799) <= 12288 + 3 * m,
        -12288 - 3 * m <= 4096 * u6[1] - (q[0] * 2896 + q[4] * 3406 + q[2] * 1567 - q[6] * 799 - q[1] * 2896 - q[5] * 4017 - q[3] * 3784 - q[7] * 2276) <= 12288 + 3 * m,
        -12288 - 3 * m <= 4096 * u6[2] - (q[0] * 2896 + q[4] * 2276 - q[2] * 1567 - q[6] * 4017 - q[1] * 2896 + q[5] * 799 + q[3] * 3784 + q[7] * 3406) <= 12288 + 3 * m,
        -12288 - 3 * m <= 4096 * u6[3] - (q[0] * 2896 + q[4] * 799 - q[2] * 3784 - q[6] * 2276 + q[1] * 2896 + q[5] * 3406 - q[3] * 1567 - q[7] * 4017) <= 12288 + 3 * m,
        -12288 - 3 * m <= 4096 * u6[4] - (q[0] * 2896 - q[4] * 799 - q[2] * 3784 + q[6] * 2276 + q[1] * 2896 - q[5] * 3406 - q[3] * 1567 + q[7] * 4017) <= 12288 + 3 * m,
        -12288 - 3 * m <= 4096 * u6[5] - (q[0] * 2896 - q[4] * 2276 - q[2] * 1567 + q[6] * 4017 - q[1] * 2896 - q[5] * 799 + q[3] * 3784 - q[7] * 3406) <= 12288 + 3 * m,
        -12288 - 3 * m <= 4096 * u6[6] - (q[0] * 2896 - q[4] * 3406 + q[2] * 1567 + q[6] * 799 - q[1] * 2896 + q[5] * 4017 - q[3] * 3784 + q[7] * 2276) <= 12288 + 3 * m,
        -12288 - 3 * m <= 4096 * u6[7] - (q[0] * 2896 - q[4] * 4017 + q[2] * 3784 - q[6] * 3406 + q[1] * 2896 - q[5] * 2276 + q[3] * 1567 - q[7] * 799) <= 12288 + 3 * m,
{
    reveal(dct8_stage6);
    reveal(dct8_stage10);
    reveal(dct8_stage11);
    reveal(dct8_stage15);
    reveal(dct8_stage16);
    reveal(dct8_stage20);
    assert(-m <= q[0] <= m && -m <= q[1] <= m && -m <= q[2] <= m && -m <= q[3] <= m && -m <= q[4] <= m && -m <= q[5] <= m && -m <= q[6] <= m && -m <= q[7] <= m);
}

/// The network of the DCT of eight values, from its first stage to its last.
proof fn lemma_dct8_network(q: Seq<i64>, r: int, m: int)
    requires
        q.len() == 64,
        1 <= r,
        0 <= m <= 0x10_0000_0000,
        40 * m + 40 < p2(r - 1),
        forall|p: int| 0 <= p < 8 ==> -m <= #[trigger] q[p] <= m,
    ensures
        ({
            let u = through_network(q, Network::Dct, 3, r);
            &&& u.len() == 64
            &&& -12288 - 3 * m <= 4096 * u[0] - (q[0] * 2896 + q[4] * 4017 + q[2] * 3784 + q[6] * 3406 + q[1] * 2896 + q[5] * 2276 + q[3] * 1567 + q[7] * 799) <= 12288 + 3 * m
            &&& -12288 - 3 * m <= 4096 * u[1] - (q[0] * 2896 + q[4] * 3406 + q[2] * 1567 - q[6] * 799 - q[1] * 2896 - q[5] * 4017 - q[3] * 3784 - q[7] * 2276) <= 12288 + 3 * m
            &&& -12288 - 3 * m <= 4096 * u[2] - (q[0] * 2896 + q[4] * 2276 - q[2] * 1567 - q[6] * 4017 - q[1] * 2896 + q[5] * 799 + q[3] * 3784 + q[7] * 3406) <= 12288 + 3 * m
            &&& -12288 - 3 * m <= 4096 * u[3] - (q[0] * 2896 + q[4] * 799 - q[2] * 3784 - q[6] * 2276 + q[1] * 2896 + q[5] * 3406 - q[3] * 1567 - q[7] * 4017) <= 12288 + 3 * m
            &&& -12288 - 3 * m <= 4096 * u[4] - (q[0] * 2896 - q[4] * 799 - q[2] * 3784 + q[6] * 2276 + q[1] * 2896 - q[5] * 3406 - q[3] * 1567 + q[7] * 4017) <= 12288 + 3 * m
            &&& -12288 - 3 * m <= 4096 * u[5] - (q[0] * 2896 - q[4] * 2276 - q[2] * 1567 + q[6] * 4017 - q[1] * 2896 - q[5] * 799 + q[3] * 3784 - q[7] * 3406) <= 12288 + 3 * m
            &&& -12288 - 3 * m <= 4096 * u[6] - (q[0] * 2896 - q[4] * 3406 + q[2] * 1567 + q[6] * 799 - q[1] * 2896 + q[5] * 4017 - q[3] * 3784 + q[7] * 2276) <= 12288 + 3 * m
            &&& -12288 - 3 * m <= 4096 * u[7] - (q[0] * 2896 - q[4] * 4017 + q[2] * 3784 - q[6] * 3406 + q[1] * 2896 - q[5] * 2276 + q[3] * 1567 - q[7] * 799) <= 12288 + 3 * m
        }),
{
    let net = Network::Dct;
    lemma_idle(q, 3, 0, 6, r);
    lemma_dct8_stage6(q, r, m);
    let u1 = partial_stage(q, net, 6, 2, r);
    assert(u1 == partial_network(q, net, 3, 7, r));
    lemma_idle(q, 3, 7, 10, r);
    lemma_dct8_stage10(u1, r, 2 * m + 1);
    let u2 = partial_stage(u1, net, 10, 2, r);
    assert(u2 == partial_network(q, net, 3, 11, r));
    lemma_idle(q, 3, 11, 11, r);
    lemma_dct8_stage11(u2, r, 3 * m + 2);
    let u3 = partial_stage(u2, net, 11, 2, r);
    assert(u3 == partial_network(q, net, 3, 12, r));
    lemma_idle(q, 3, 12, 15, r);
    lemma_dct8_stage15(u3, r, 6 * m + 4);
    let u4 = partial_stage(u3, net, 15, 2, r);
    assert(u4 == partial_network(q, net, 3, 16, r));
    lemma_idle(q, 3, 16, 16, r);
    lemma_dct8_stage16(u4, r, 12 * m + 8);
    let u5 = partial_stage(u4, net, 16, 1, r);
    assert(u5 == partial_network(q, net, 3, 17, r));
    lemma_idle(q, 3, 17, 20, r);
    lemma_dct8_stage20(u5, r, 18 * m + 13);
    let u6 = partial_stage(u5, net, 20, 4, r);
    assert(u6 == partial_network(q, net, 3, 21, r));
    lemma_idle(q, 3, 21, 30, r);
    lemma_dct8_outputs(q, u1, u2, u3, u4, u5, u6, m);
}

/// The sum of eight values: the first times the cosine of an eighth of a turn, each other times
/// the cosine of its wave at place `i`.
pub open spec fn cosines8(t: Seq<i64>, i: int) -> int {
    t[0] * cos(32) + t[1] * cos(8 * (2 * i + 1)) + t[2] * cos(16 * (2 * i + 1)) + t[3] * cos(24 * (2 * i + 1)) + t[4] * cos(32 * (2 * i + 1)) + t[5] * cos(40 * (2 * i + 1)) + t[6] * cos(48 * (2 * i + 1)) + t[7] * cos(56 * (2 * i + 1))
}

/// The sum with the cosines put in.
proof fn lemma_cosines8(t: Seq<i64>, i: int, c0: int, c1: int, c2: int, c3: int, c4: int, c5: int, c6: int, c7: int)
    requires
        cos(32) == c0,
        cos(8 * (2 * i + 1)) == c1,
        cos(16 * (2 * i + 1)) == c2,
        cos(24 * (2 * i + 1)) == c3,
        cos(32 * (2 * i + 1)) == c4,
        cos(40 * (2 * i + 1)) == c5,
        cos(48 * (2 * i + 1)) == c6,
        cos(56 * (2 * i + 1)) == c7,
    ensures
        cosines8(t, i) == t[0] * c0 + t[1] * c1 + t[2] * c2 + t[3] * c3 + t[4] * c4 + t[5] * c5 + t[6] * c6 + t[7] * c7,
{
}

/// The sums at each place.
proof fn lemma_cosines8_by_place(t: Seq<i64>, i: int)
    requires
        0 <= i < 8,
    ensures
        i == 0 ==> cosines8(t, i) == t[0] * 2896 + t[1] * 4017 + t[2] * 3784 + t[3] * 3406 + t[4] * 2896 + t[5] * 2276 + t[6] * 1567 + t[7] * 799,
        i == 1 ==> cosines8(t, i) == t[0] * 2896 + t[1] * 3406 + t[2] * 1567 - t[3] * 799 - t[4] * 2896 - t[5] * 4017 - t[6] * 3784 - t[7] * 2276,
        i == 2 ==> cosines8(t, i) == t[0] * 2896 + t[1] * 2276 - t[2] * 1567 - t[3] * 4017 - t[4] * 2896 + t[5] * 799 + t[6] * 3784 + t[7] * 3406,
        i == 3 ==> cosines8(t, i) == t[0] * 2896 + t[1] * 799 - t[2] * 3784 - t[3] * 2276 + t[4] * 2896 + t[5] * 3406 - t[6] * 1567 - t[7] * 4017,
        i == 4 ==> cosines8(t, i) == t[0] * 2896 - t[1] * 799 - t[2] * 3784 + t[3] * 2276 + t[4] * 2896 - t[5] * 3406 - t[6] * 1567 + t[7] * 4017,
        i == 5 ==> cosines8(t, i) == t[0] * 2896 - t[1] * 2276 - t[2] * 1567 + t[3] * 4017 - t[4] * 2896 - t[5] * 799 + t[6] * 3784 - t[7] * 3406,
        i == 6 ==> cosines8(t, i) == t[0] * 2896 - t[1] * 3406 + t[2] * 1567 + t[3] * 799 - t[4] * 2896 + t[5] * 4017 - t[6] * 3784 + t[7] * 2276,
        i == 7 ==> cosines8(t, i) == t[0] * 2896 - t[1] * 4017 + t[2] * 3784 - t[3] * 3406 + t[4] * 2896 - t[5] * 2276 + t[6] * 1567 - t[7] * 799,
{
    reveal(cos);
    if i == 0 {
        lemma_cosines8(t, i, 2896, 4017, 3784, 3406, 2896, 2276, 1567, 799);
    } else if i == 1 {
        lemma_cosines8(t, i, 2896, 3406, 1567, -799, -2896, -4017, -3784, -2276);
    } else if i == 2 {
        lemma_cosines8(t, i, 2896, 2276, -1567, -4017, -2896, 799, 3784, 3406);
    } else if i == 3 {
        lemma_cosines8(t, i, 2896, 799, -3784, -2276, 2896, 3406, -1567, -4017);
    } else if i == 4 {
        lemma_cosines8(t, i, 2896, -799, -3784, 2276, 2896, -3406, -1567, 4017);
    } else if i == 5 {
        lemma_cosines8(t, i, 2896, -2276, -1567, 4017, -2896, -799, 3784, -3406);
    } else if i == 6 {
        lemma_cosines8(t, i, 2896, -3406, 1567, 799, -2896, 4017, -3784, 2276);
    } else if i == 7 {
        lemma_cosines8(t, i, 2896, -4017, 3784, -3406, 2896, -2276, 1567, -799);
    }
}

/// The inverse DCT of eight values: each output is the sum of the first value times the cosine
/// of an eighth of a turn and of the others times the cosines of their waves at the output's
/// place, to within 3 and 3 parts in 4096 of the greatest.
pub proof fn lemma_eight_point_dct(t: Seq<i64>, r: int, m: int, i: int)
    requires
        t.len() == 64,
        1 <= r,
        0 <= m <= 0x10_0000_0000,
        40 * m + 40 < p2(r - 1),
        forall|p: int| 0 <= p < 8 ==> -m <= #[trigger] t[p] <= m,
        0 <= i < 8,
    ensures
        -12288 - 3 * m <= 4096 * transformed(t, Kind::Dct, 3, r)[i] - cosines8(t, i) <= 12288 + 3 * m,
{
    reveal(transformed);
    lemma_p2_values();
    let q = dct_order(t, 3);
    assert(q[0] == t[0] && q[1] == t[4] && q[2] == t[2] && q[3] == t[6] && q[4] == t[1] && q[5] == t[5] && q[6] == t[3] && q[7] == t[7]) by {
        reveal_with_fuel(reversed, 4);
    }
    assert(-m <= t[0] <= m && -m <= t[1] <= m && -m <= t[2] <= m && -m <= t[3] <= m && -m <= t[4] <= m && -m <= t[5] <= m && -m <= t[6] <= m && -m <= t[7] <= m);
    assert forall|p: int| 0 <= p < 8 implies -m <= #[trigger] q[p] <= m by {
        assert(p == 0 || p == 1 || p == 2 || p == 3 || p == 4 || p == 5 || p == 6 || p == 7);
    }
    lemma_dct8_network(q, r, m);
    lemma_cosines8_by_place(t, i);
}

} // verus!
