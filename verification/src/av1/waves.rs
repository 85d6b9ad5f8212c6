//! What the one-dimensional transforms are: sums of waves.
//!
//! The networks compute sums of cosines and sines a few at a time. Here stands what
//! they add up to, for the sizes at which a sum is short, and what holds at every size.
use super::butterfly::{adst4, cos, dct, dct_order, lemma_reversed, partial_network, partial_stage, reversed, scaled, sin, stepped, transformed, Kind, Network, COS128_LOOKUP, DCT_LEN, DCT_MIN};
use crate::math::{lemma_p2_mono, lemma_p2_pos, lemma_p2_values, p2, round2};
use vstd::prelude::*;

verus! {

/// The cosine is even, and turns its sign half a turn on; the sine is the cosine a quarter
/// of a turn back. From one to zero it falls at every step of the first quarter.
pub proof fn lemma_cosine(a: int)
    ensures
        cos(-a) == cos(a),
        cos(a + 256) == cos(a),
        cos(a + 128) == -cos(a),
        sin(a) == cos(64 - a),
        cos(0) == 4096,
        cos(64) == 0,
        0 <= a < 64 ==> cos(a + 1) < cos(a),
{
    let m = a % 256;
    assert((a + 256) % 256 == m);
    assert((a + 128) % 256 == (if m < 128 {
        m + 128
    } else {
        m - 128
    }));
    lemma_mirrored(a);
    lemma_mirrored(a - 64);
    assert(-(a - 64) == 64 - a);
    reveal(cos);
    if 0 <= a < 64 {
        assert(COS128_LOOKUP@[a + 1] < COS128_LOOKUP@[a]);
    }
}

/// The cosine is even.
proof fn lemma_mirrored(a: int)
    ensures
        cos(-a) == cos(a),
{
    let m = a % 256;
    assert((-a) % 256 == (if m == 0 {
        0
    } else {
        256 - m
    }));
    reveal(cos);
}

/// The squares of the cosine and of the sine of an angle add up to one, but for rounding.
pub proof fn lemma_cosine_and_sine(a: int)
    ensures
        -5000 <= cos(a) * cos(a) + sin(a) * sin(a) - 4096 * 4096 <= 5000,
{
    let m = a % 256;
    let k = if m <= 64 {
        m
    } else if m <= 128 {
        128 - m
    } else if m <= 192 {
        m - 128
    } else {
        256 - m
    };
    let (c, s) = (COS128_LOOKUP@[k] as int, COS128_LOOKUP@[64 - k] as int);
    assert((a - 64) % 256 == (if m >= 64 {
        m - 64
    } else {
        m + 192
    }));
    assert((cos(a) == c || cos(a) == -c) && (sin(a) == s || sin(a) == -s)) by {
        reveal(cos);
    }
    lemma_squares(k);
    assert((-c) * (-c) == c * c && (-s) * (-s) == s * s) by (nonlinear_arith);
}

/// The squares of two entries of the table that are as far from its two ends add up to one,
/// but for rounding.
proof fn lemma_squares(k: int)
    requires
        0 <= k <= 64,
    ensures
        ({
            let (c, s) = (COS128_LOOKUP@[k] as int, COS128_LOOKUP@[64 - k] as int);
            -5000 <= c * c + s * s - 4096 * 4096 <= 5000
        }),
{
    let (c, s) = (COS128_LOOKUP@[k] as int, COS128_LOOKUP@[64 - k] as int);
    if k < 9 {
        assert(-5000 <= c * c + s * s - 4096 * 4096 <= 5000) by (nonlinear_arith)
            requires
                (c == 4096 && s == 0)
                || (c == 4095 && s == 101)
                || (c == 4091 && s == 201)
                || (c == 4085 && s == 301)
                || (c == 4076 && s == 401)
                || (c == 4065 && s == 501)
                || (c == 4052 && s == 601)
                || (c == 4036 && s == 700)
                || (c == 4017 && s == 799),
        ;
    } else if k < 18 {
        assert(-5000 <= c * c + s * s - 4096 * 4096 <= 5000) by (nonlinear_arith)
            requires
                (c == 3996 && s == 897)
                || (c == 3973 && s == 995)
                || (c == 3948 && s == 1092)
                || (c == 3920 && s == 1189)
                || (c == 3889 && s == 1285)
                || (c == 3857 && s == 1380)
                || (c == 3822 && s == 1474)
                || (c == 3784 && s == 1567)
                || (c == 3745 && s == 1660),
        ;
    } else if k < 27 {
        assert(-5000 <= c * c + s * s - 4096 * 4096 <= 5000) by (nonlinear_arith)
            requires
                (c == 3703 && s == 1751)
                || (c == 3659 && s == 1842)
                || (c == 3612 && s == 1931)
                || (c == 3564 && s == 2019)
                || (c == 3513 && s == 2106)
                || (c == 3461 && s == 2191)
                || (c == 3406 && s == 2276)
                || (c == 3349 && s == 2359)
                || (c == 3290 && s == 2440),
        ;
    } else if k < 36 {
        assert(-5000 <= c * c + s * s - 4096 * 4096 <= 5000) by (nonlinear_arith)
            requires
                (c == 3229 && s == 2520)
                || (c == 3166 && s == 2598)
                || (c == 3102 && s == 2675)
                || (c == 3035 && s == 2751)
                || (c == 2967 && s == 2824)
                || (c == 2896 && s == 2896)
                || (c == 2824 && s == 2967)
                || (c == 2751 && s == 3035)
                || (c == 2675 && s == 3102),
        ;
    } else if k < 45 {
        assert(-5000 <= c * c + s * s - 4096 * 4096 <= 5000) by (nonlinear_arith)
            requires
                (c == 2598 && s == 3166)
                || (c == 2520 && s == 3229)
                || (c == 2440 && s == 3290)
                || (c == 2359 && s == 3349)
                || (c == 2276 && s == 3406)
                || (c == 2191 && s == 3461)
                || (c == 2106 && s == 3513)
                || (c == 2019 && s == 3564)
                || (c == 1931 && s == 3612),
        ;
    } else if k < 54 {
        assert(-5000 <= c * c + s * s - 4096 * 4096 <= 5000) by (nonlinear_arith)
            requires
                (c == 1842 && s == 3659)
                || (c == 1751 && s == 3703)
                || (c == 1660 && s == 3745)
                || (c == 1567 && s == 3784)
                || (c == 1474 && s == 3822)
                || (c == 1380 && s == 3857)
                || (c == 1285 && s == 3889)
                || (c == 1189 && s == 3920)
                || (c == 1092 && s == 3948),
        ;
    } else if k < 63 {
        assert(-5000 <= c * c + s * s - 4096 * 4096 <= 5000) by (nonlinear_arith)
            requires
                (c == 995 && s == 3973)
                || (c == 897 && s == 3996)
                || (c == 799 && s == 4017)
                || (c == 700 && s == 4036)
                || (c == 601 && s == 4052)
                || (c == 501 && s == 4065)
                || (c == 401 && s == 4076)
                || (c == 301 && s == 4085)
                || (c == 201 && s == 4091),
        ;
    } else {
        assert(-5000 <= c * c + s * s - 4096 * 4096 <= 5000) by (nonlinear_arith)
            requires
                (c == 101 && s == 4095)
                || (c == 0 && s == 4096),
        ;
    }
}

/// The cosines that a sum of four waves takes.
proof fn lemma_cosines_of_four()
    ensures
        cos(16) == 3784,
        cos(32) == 2896,
        cos(48) == 1567,
        cos(80) == -1567,
        cos(96) == -2896,
        cos(112) == -3784,
        cos(144) == -3784,
        cos(160) == -2896,
        cos(224) == 2896,
        cos(240) == 3784,
        cos(336) == -1567,
        sin(32) == 2896,
        sin(48) == 3784,
{
    reveal(cos);
}

/// The inverse DCT of four values: each output is the sum of the first value times the
/// cosine of an eighth of a turn and of the others times the cosines of their waves at the
/// output's place, to within one.
pub proof fn lemma_four_point_dct(t: Seq<i64>, r: int, i: int)
    requires
        t.len() == 64,
        20 <= r <= 40,
        forall|k: int| 0 <= k < 4 ==> -0x1_0000 <= #[trigger] t[k] <= 0x1_0000,
        0 <= i < 4,
    ensures
        ({
            let u = transformed(t, Kind::Dct, 2, r);
            let w = 16 * (2 * i + 1);
            let sum = t[0] * cos(32) + t[1] * cos(w) + t[2] * cos(2 * w) + t[3] * cos(3 * w);
            -4096 <= 4096 * u[i] - sum <= 4096
        }),
{
    reveal(transformed);
    lemma_p2_values();
    lemma_cosines_of_four();
    lemma_p2_mono(19, r - 1);
    assert(p2(19) == 0x8_0000) by {
        lemma_p2_values();
    }
    let q = dct_order(t, 2);
    reveal_with_fuel(reversed, 3);
    assert(q[0] == t[0] && q[1] == t[2] && q[2] == t[1] && q[3] == t[3]);
    assert(t[0] <= 0x1_0000 && t[1] <= 0x1_0000 && t[2] <= 0x1_0000 && t[3] <= 0x1_0000);
    lemma_four_point_network(q, r);
    let u = transformed(t, Kind::Dct, 2, r);
    let (e0, e1) = (round2(t[0] * 2896 + t[2] * 2896, 12), round2(t[0] * 2896 - t[2] * 2896, 12));
    let (a2, a3) = (round2(t[1] * 1567 - t[3] * 3784, 12), round2(t[1] * 3784 + t[3] * 1567, 12));
    assert(u[0] == e0 + a3 && u[1] == e1 + a2 && u[2] == e1 - a2 && u[3] == e0 - a3);
}

/// The network of four values, step by step.
proof fn lemma_four_point_network(q: Seq<i64>, r: int)
    requires
        q.len() == 64,
        20 <= r <= 40,
        p2(r - 1) >= 0x8_0000,
        forall|k: int| 0 <= k < 4 ==> -0x1_0000 <= #[trigger] q[k] <= 0x1_0000,
    ensures
        ({
            let u = super::butterfly::through_network(q, Network::Dct, 2, r);
            let (e0, e1) = (round2(q[0] * 2896 + q[1] * 2896, 12), round2(q[0] * 2896 - q[1] * 2896, 12));
            let (a2, a3) = (round2(q[2] * 1567 - q[3] * 3784, 12), round2(q[2] * 3784 + q[3] * 1567, 12));
            u[0] == e0 + a3 && u[1] == e1 + a2 && u[2] == e1 - a2 && u[3] == e0 - a3
        }),
{
    lemma_p2_values();
    lemma_cosines_of_four();
    assert(q[0] <= 0x1_0000 && q[1] <= 0x1_0000 && q[2] <= 0x1_0000 && q[3] <= 0x1_0000);
    let (e0, e1) = (round2(q[0] * 2896 + q[1] * 2896, 12), round2(q[0] * 2896 - q[1] * 2896, 12));
    let (a2, a3) = (round2(q[2] * 1567 - q[3] * 3784, 12), round2(q[2] * 3784 + q[3] * 1567, 12));
    lemma_idle(q, 10, r);
    let s1 = partial_stage(q, Network::Dct, 10, 1, r);
    assert(s1 == stepped(q, dct(10, 0), r)) by {
        reveal_with_fuel(partial_stage, 2);
    }
    assert(s1[0] == e0 && s1[1] == e1 && s1[2] == q[2] && s1[3] == q[3]);
    let s2 = partial_stage(q, Network::Dct, 10, 2, r);
    assert(s2 == stepped(s1, dct(10, 1), r));
    assert(s2[0] == e0 && s2[1] == e1 && s2[2] == a2 && s2[3] == a3);
    assert(partial_network(q, Network::Dct, 2, 11, r) == s2);
    lemma_idle_from(q, s2, 11, 15, r);
    let s3 = partial_stage(s2, Network::Dct, 15, 1, r);
    assert(s3 == stepped(s2, dct(15, 0), r)) by {
        reveal_with_fuel(partial_stage, 2);
    }
    assert(s3[0] == e0 + a3 && s3[3] == e0 - a3 && s3[1] == e1 && s3[2] == a2);
    let s4 = partial_stage(s2, Network::Dct, 15, 2, r);
    assert(s4 == stepped(s3, dct(15, 1), r));
    assert(partial_network(q, Network::Dct, 2, 16, r) == s4);
    lemma_idle_from(q, s4, 16, 30, r);
}

/// The first stages do not run on four values.
proof fn lemma_idle(q: Seq<i64>, stages: int, r: int)
    requires
        0 <= stages <= 10,
    ensures
        partial_network(q, Network::Dct, 2, stages, r) == q,
    decreases stages,
{
    if stages > 0 {
        lemma_idle(q, stages - 1, r);
    }
}

/// Nor do those between the ones that do, and behind them.
proof fn lemma_idle_from(q: Seq<i64>, s: Seq<i64>, from: int, to: int, r: int)
    requires
        (from == 11 && to <= 15) || (from == 16 && to <= 30),
        from <= to,
        partial_network(q, Network::Dct, 2, from, r) == s,
    ensures
        partial_network(q, Network::Dct, 2, to, r) == s,
    decreases to,
{
    if to > from {
        lemma_idle_from(q, s, from, to - 1, r);
        assert(DCT_MIN@[to - 1] > 2);
    }
}

/// The sine of ninths of half a turn, scaled as the ADST of four values scales it.
pub open spec fn ninths(m: int) -> int {
    let k = m % 18;
    let j = if k < 9 {
        k
    } else {
        k - 9
    };
    let s = if j == 0 {
        0int
    } else if j == 1 || j == 8 {
        1321
    } else if j == 2 || j == 7 {
        2482
    } else if j == 3 || j == 6 {
        3344
    } else {
        3803
    };
    if k < 9 {
        s
    } else {
        -s
    }
}

/// The inverse ADST of four values: each output is the sum of the values times the sines of
/// their waves at the output's place, rounded.
pub proof fn lemma_four_point_adst(t: Seq<i64>, r: int, i: int)
    requires
        t.len() == 64,
        forall|k: int| 0 <= k < 4 ==> -0x100_0000 <= #[trigger] t[k] <= 0x100_0000,
        0 <= i < 4,
    ensures
        ({
            let u = transformed(t, Kind::Adst, 2, r);
            let m = i + 1;
            let sum = t[0] * ninths(m) + t[1] * ninths(3 * m) + t[2] * ninths(5 * m) + t[3] * ninths(7 * m);
            -2048 <= 4096 * u[i] - sum <= 2048
        }),
{
    reveal(transformed);
    lemma_p2_values();
    assert(t[0] <= 0x100_0000 && t[1] <= 0x100_0000 && t[2] <= 0x100_0000 && t[3] <= 0x100_0000);
    let u = adst4(t);
    if i == 0 {
        assert(ninths(1) == 1321 && ninths(3) == 3344 && ninths(5) == 3803 && ninths(7) == 2482);
    } else if i == 1 {
        assert(ninths(2) == 2482 && ninths(6) == 3344 && ninths(10) == -1321 && ninths(14) == -3803);
    } else if i == 2 {
        assert(ninths(3) == 3344 && ninths(9) == 0 && ninths(15) == -3344 && ninths(21) == 3344);
    } else {
        assert(ninths(4) == 3803 && ninths(12) == -3344 && ninths(20) == 2482 && ninths(28) == -1321);
    }
}

/// The identity scales by the square root of half its size: at sixteen values twice as much
/// as at four, and twice over at four as much as once at eight.
pub proof fn lemma_identity_scales(x: int)
    ensures
        scaled(x, 3) == 2 * x,
        scaled(x, 5) == 4 * x,
        -1 <= scaled(x, 4) - 2 * scaled(x, 2) <= 1,
        x >= 0 ==> -2 <= scaled(scaled(x, 2), 2) - scaled(x, 3) <= 2 + x / 2048,
        x <= 0 ==> -2 + x / 2048 <= scaled(scaled(x, 2), 2) - scaled(x, 3) <= 2,
{
    lemma_p2_values();
    let y = scaled(x, 2);
    let z = scaled(y, 2);
    assert(y == (5793 * x + 2048) / 4096);
    assert(-2048 < 4096 * y - 5793 * x <= 2048);
    assert(z == (5793 * y + 2048) / 4096);
    assert(-2048 < 4096 * z - 5793 * y <= 2048);
    let w = scaled(x, 4);
    assert(w == (11586 * x + 2048) / 4096);
    assert(-2048 < 4096 * w - 11586 * x <= 2048);
    let d = 16777216 * (z - 2 * x) - 4417 * x;
    assert(d == 4096 * (4096 * z - 5793 * y) + 5793 * (4096 * y - 5793 * x));
    assert(-20252672 <= d <= 20252672);
    let h = x / 2048;
    assert(2048 * h <= x < 2048 * h + 2048);
}

/// Whether the first `width` values are `v` and the others zero.
pub open spec fn flat(t: Seq<i64>, width: int, v: int) -> bool {
    &&& t.len() == 64
    &&& forall|i: int| 0 <= i < width && i < 64 ==> #[trigger] t[i] == v
    &&& forall|i: int| width <= i < 64 ==> #[trigger] t[i] == 0
}

/// How many values are not zero after some stages.
spec fn reached(stages: int, n: int) -> int {
    if stages <= 10 {
        1
    } else if stages <= 15 {
        2
    } else if stages <= 20 || n <= 2 {
        4
    } else if stages <= 24 || n <= 3 {
        8
    } else if stages <= 27 || n <= 4 {
        16
    } else if stages <= 29 || n <= 5 {
        32
    } else {
        64
    }
}

/// Whether a stage spreads the values to twice as many.
spec fn spreads(stage: int) -> bool {
    stage == 15 || stage == 20 || stage == 24 || stage == 27 || stage == 29
}

/// A stage that works behind the values leaves them.
proof fn lemma_stage_stays(t: Seq<i64>, stage: int, k: int, r: int, width: int, v: int)
    requires
        flat(t, width, v),
        0 <= stage < 30,
        stage != 10,
        !spreads(stage),
        width == reached(stage, 6),
        0 <= k <= DCT_LEN@[stage],
        1 <= r,
    ensures
        partial_stage(t, Network::Dct, stage, k, r) == t,
    decreases k,
{
    if k > 0 {
        lemma_stage_stays(t, stage, k - 1, r, width, v);
        let s = dct(stage, k - 1);
        assert(width <= s.a < 64 && width <= s.b < 64);
        assert(t[s.a] == 0 && t[s.b] == 0);
        assert(0 * cos(s.angle) == 0 && 0 * sin(s.angle) == 0) by (nonlinear_arith);
        lemma_p2_values();
        lemma_p2_pos(r - 1);
        assert(stepped(t, s, r) =~= t);
    }
}

/// A stage that spreads the values copies them in mirror order.
proof fn lemma_stage_spreads(t: Seq<i64>, stage: int, k: int, r: int, width: int, v: int)
    requires
        flat(t, width, v),
        0 <= stage < 30,
        spreads(stage),
        width == reached(stage, 6),
        0 <= k <= width,
        1 <= r,
        -p2(r - 1) <= v < p2(r - 1),
    ensures
        ({
            let u = partial_stage(t, Network::Dct, stage, k, r);
            &&& u.len() == 64
            &&& forall|i: int| 0 <= i < width ==> #[trigger] u[i] == v
            &&& forall|i: int| width <= i < 2 * width - k ==> #[trigger] u[i] == 0
            &&& forall|i: int| 2 * width - k <= i < 2 * width ==> #[trigger] u[i] == v
            &&& forall|i: int| 2 * width <= i < 64 ==> #[trigger] u[i] == 0
        }),
    decreases k,
{
    if k > 0 {
        lemma_stage_spreads(t, stage, k - 1, r, width, v);
        let s = dct(stage, k - 1);
        assert(s.a == k - 1 && s.b == 2 * width - k && !s.rotation && !s.flip);
        let before = partial_stage(t, Network::Dct, stage, k - 1, r);
        assert(before[s.a] == v && before[s.b] == 0);
    }
}

/// The first value alone, through the stages.
proof fn lemma_flat_network(t: Seq<i64>, n: int, stages: int, r: int, x: int, v: int)
    requires
        flat(t, 1, x),
        2 <= n <= 6,
        0 <= stages <= 30,
        1 <= r,
        v == round2(x * 2896, 12),
        -0x4000_0000_0000 <= x <= 0x4000_0000_0000,
        -p2(r - 1) <= v < p2(r - 1),
    ensures
        flat(
            partial_network(t, Network::Dct, n, stages, r),
            reached(stages, n),
            if stages <= 10 {
                x
            } else {
                v
            },
        ),
    decreases stages,
{
    if stages > 0 {
        lemma_flat_network(t, n, stages - 1, r, x, v);
        let stage = stages - 1;
        let before = partial_network(t, Network::Dct, n, stage, r);
        let value = if stage <= 10 {
            x
        } else {
            v
        };
        if DCT_MIN@[stage] <= n {
            if stage == 10 {
                lemma_cosines_of_four();
                lemma_p2_values();
                let first = partial_stage(before, Network::Dct, 10, 1, r);
                assert(first == stepped(before, dct(10, 0), r)) by {
                    reveal_with_fuel(partial_stage, 2);
                }
                assert(before[0] == x && before[1] == 0 && before[2] == 0 && before[3] == 0);
                assert(first[0] == v && first[1] == v && first[2] == 0 && first[3] == 0);
                let second = partial_stage(before, Network::Dct, 10, 2, r);
                let s = dct(10, 1);
                assert(0 * cos(s.angle) == 0 && 0 * sin(s.angle) == 0) by (nonlinear_arith);
                assert(second == stepped(first, s, r));
                assert(second =~= first);
            } else if spreads(stage) {
                assert(reached(stage, n) == reached(stage, 6));
                assert(DCT_LEN@[stage] == reached(stage, 6));
                lemma_stage_spreads(before, stage, reached(stage, 6), r, reached(stage, 6), v);
            } else {
                assert(reached(stage, n) == reached(stage, 6));
                lemma_stage_stays(before, stage, DCT_LEN@[stage] as int, r, reached(stage, 6), value);
            }
        } else {
            assert(reached(stages, n) == reached(stage, n));
        }
    }
}

/// The first value of an inverse DCT is a mean: alone it gives every place the same value, at
/// every size, the cosine of an eighth of a turn times it.
pub proof fn lemma_first_value_is_flat(t: Seq<i64>, n: int, r: int, i: int)
    requires
        t.len() == 64,
        2 <= n <= 6,
        1 <= r,
        forall|k: int| 1 <= k < 64 ==> #[trigger] t[k] == 0,
        -0x4000_0000_0000 <= t[0] <= 0x4000_0000_0000,
        -p2(r - 1) <= round2(t[0] * 2896, 12) < p2(r - 1),
        0 <= i < p2(n),
    ensures
        transformed(t, Kind::Dct, n, r)[i] == round2(t[0] * 2896, 12),
{
    reveal(transformed);
    lemma_p2_values();
    let q = dct_order(t, n);
    assert forall|k: int| 0 <= k < 64 implies #[trigger] q[k] == (if k == 0 {
        t[0] as int
    } else {
        0
    }) by {
        lemma_reversed(n, k);
        if k < p2(n) {
            lemma_reversed_zero(n, k);
        }
    }
    lemma_flat_network(q, n, 30, r, t[0] as int, round2(t[0] * 2896, 12));
    assert(reached(30, n) == p2(n));
}

/// Only zero reverses to zero.
proof fn lemma_reversed_zero(n: int, x: int)
    requires
        0 <= x < p2(n),
    ensures
        reversed(n, x) == 0 <==> x == 0,
    decreases n,
{
    if n > 0 {
        lemma_reversed_zero(n - 1, x / 2);
        lemma_reversed(n - 1, x / 2);
        lemma_p2_pos(n - 1);
        let (low, weight) = (x % 2, p2(n - 1));
        assert(low * weight == (if low == 1 {
            weight
        } else {
            0
        })) by (nonlinear_arith)
            requires
                low == 0 || low == 1,
        ;
    }
}

} // verus!
