//! The butterfly networks of the inverse transforms.
//!
//! A one-dimensional inverse DCT or ADST is a permutation and a fixed sequence of
//! stages. Every stage applies rotations, or every stage applies Hadamard
//! rotations, to disjoint pairs of a working array of 64 values. A network is
//! described here by what each of its steps is; running it is one loop.
use crate::math::{clamp, clamp_i64, lemma_p2_add, lemma_p2_mono, lemma_p2_pos, lemma_p2_values, p2, pow2_i64, round2};
use vstd::prelude::*;

verus! {

/// `round(4096 * cos(angle * pi / 128))` for `angle` in `0..=64`.
pub const COS128_LOOKUP: [i64; 65] = [
    4096, 4095, 4091, 4085, 4076, 4065, 4052, 4036, 4017, 3996, 3973, 3948, 3920, 3889, 3857, 3822,
    3784, 3745, 3703, 3659, 3612, 3564, 3513, 3461, 3406, 3349, 3290, 3229, 3166, 3102, 3035, 2967,
    2896, 2824, 2751, 2675, 2598, 2520, 2440, 2359, 2276, 2191, 2106, 2019, 1931, 1842, 1751, 1660,
    1567, 1474, 1380, 1285, 1189, 1092, 995, 897, 799, 700, 601, 501, 401, 301, 201, 101, 0,
];

/// The cosine of `angle` in units of `pi / 128`, scaled by 4096.
#[verifier::opaque]
pub open spec fn cos(angle: int) -> int {
    let a = angle % 256;
    if a <= 64 {
        COS128_LOOKUP@[a] as int
    } else if a <= 128 {
        -COS128_LOOKUP@[128 - a]
    } else if a <= 192 {
        -COS128_LOOKUP@[a - 128]
    } else {
        COS128_LOOKUP@[256 - a] as int
    }
}

/// The sine of `angle` in units of `pi / 128`, scaled by 4096.
pub open spec fn sin(angle: int) -> int {
    cos(angle - 64)
}

/// The low `n` bits of `x` in reverse order.
pub open spec fn reversed(n: int, x: int) -> int
    decreases n,
{
    if n <= 0 {
        0
    } else {
        (x % 2) * p2(n - 1) + reversed(n - 1, x / 2)
    }
}

/// The cosine of `angle` in units of `pi / 128`, scaled by 4096.
pub fn cos128(angle: i32) -> (r: i64)
    ensures
        r == cos(angle as int),
        -4096 <= r <= 4096,
{
    proof {
        reveal(cos);
    }
    let a = ((angle as i64 + 0x1_0000_0000) as u64 % 256) as usize;
    assert(a == angle as int % 256);
    if a <= 64 {
        COS128_LOOKUP[a]
    } else if a <= 128 {
        -COS128_LOOKUP[128 - a]
    } else if a <= 192 {
        -COS128_LOOKUP[a - 128]
    } else {
        COS128_LOOKUP[256 - a]
    }
}

/// The sine of `angle` in units of `pi / 128`, scaled by 4096.
pub fn sin128(angle: i32) -> (r: i64)
    requires
        angle >= i32::MIN + 64,
    ensures
        r == sin(angle as int),
        -4096 <= r <= 4096,
{
    cos128(angle - 64)
}

/// `n` reversed bits hold a value below `2^n`.
pub proof fn lemma_reversed(n: int, x: int)
    requires
        x >= 0,
    ensures
        0 <= reversed(n, x) < p2(n),
    decreases n,
{
    if n > 0 {
        lemma_reversed(n - 1, x / 2);
        assert((x % 2) * p2(n - 1) <= p2(n - 1) && (x % 2) * p2(n - 1) >= 0) by (nonlinear_arith)
            requires
                0 <= x % 2 <= 1,
                p2(n - 1) >= 0,
        ;
    }
}

/// The low `num_bits` bits of `x` in reverse order.
pub fn brev(num_bits: u32, x: usize) -> (r: usize)
    requires
        num_bits < 32,
    ensures
        r == reversed(num_bits as int, x as int),
        r < p2(num_bits as int),
{
    proof {
        lemma_reversed(num_bits as int, x as int);
        lemma_p2_mono(num_bits as int, 31);
        lemma_p2_values();
    }
    let mut t: usize = 0;
    let mut rest = x;
    let mut i: u32 = 0;
    while i < num_bits
        invariant
            i <= num_bits < 32,
            reversed(num_bits as int, x as int) == t + reversed(num_bits - i, rest as int),
            reversed(num_bits as int, x as int) < p2(31),
        decreases num_bits - i,
    {
        proof {
            lemma_reversed(num_bits - i - 1, rest as int / 2);
            lemma_p2_values();
            lemma_p2_pos(num_bits - i - 1);
            let low = rest as int % 2;
            let weight = p2(num_bits - i - 1);
            assert(low * weight == if low == 1 {
                weight
            } else {
                0
            }) by (nonlinear_arith)
                requires
                    low == 0 || low == 1,
            ;
            assert(reversed(num_bits - i, rest as int) == low * weight + reversed(
                num_bits - i - 1,
                rest as int / 2,
            ));
        }
        if rest % 2 == 1 {
            t = t + crate::math::pow2_usize(num_bits - 1 - i);
        }
        rest = rest / 2;
        i = i + 1;
    }
    t
}

/// Limit `x` to the range of a signed integer of `bits` bits.
pub open spec fn clip(x: int, bits: int) -> int {
    clamp(x, -p2(bits - 1), p2(bits - 1) - 1)
}

/// Limit `x` to the range of a signed integer of `bits` bits.
pub fn clip_signed(x: i64, bits: u32) -> (r: i64)
    requires
        1 <= bits < 64,
    ensures
        r == clip(x as int, bits as int),
{
    proof {
        lemma_p2_pos(bits - 1);
    }
    let half = pow2_i64(bits - 1);
    clamp_i64(x, -half, half - 1)
}

/// `x / 2^n`, rounded half up.
pub fn round2_i64(x: i64, n: u32) -> (r: i64)
    requires
        n <= 32,
        -0x4000_0000_0000_0000 <= x <= 0x4000_0000_0000_0000,
    ensures
        r == round2(x as int, n as int),
{
    if n == 0 {
        x
    } else {
        proof {
            lemma_p2_mono(n - 1, 31);
            lemma_p2_values();
            lemma_p2_pos(n - 1);
        }
        crate::math::shr_i64(x + pow2_i64(n - 1), n)
    }
}

/// One step of a network.
#[derive(Clone, Copy)]
pub struct Step {
    /// A rotation, or else a Hadamard rotation.
    pub rotation: bool,
    /// The first position.
    pub a: usize,
    /// The second position.
    pub b: usize,
    /// The rotation's angle.
    pub angle: i32,
    /// Whether the outcome is exchanged.
    pub flip: bool,
}

/// What a step does.
pub struct Move {
    /// A rotation, or else a Hadamard rotation.
    pub rotation: bool,
    /// The first position.
    pub a: int,
    /// The second position.
    pub b: int,
    /// The rotation's angle.
    pub angle: int,
    /// Whether the outcome is exchanged.
    pub flip: bool,
}

impl View for Step {
    type V = Move;

    open spec fn view(&self) -> Move {
        Move { rotation: self.rotation, a: self.a as int, b: self.b as int, angle: self.angle as int, flip: self.flip }
    }
}

/// A rotation of positions `a` and `b`.
pub open spec fn rotation(a: int, b: int, angle: int, flip: bool) -> Move {
    Move { rotation: true, a, b, angle, flip }
}

/// A Hadamard rotation of positions `a` and `b`.
pub open spec fn hadamard(a: int, b: int, flip: bool) -> Move {
    Move { rotation: false, a, b, angle: 0, flip }
}

/// A rotation of positions `a` and `b`.
fn rotation_step(a: usize, b: usize, angle: i32, flip: bool) -> (s: Step)
    ensures
        s@ == rotation(a as int, b as int, angle as int, flip),
{
    Step { rotation: true, a, b, angle, flip }
}

/// A Hadamard rotation of positions `a` and `b`.
fn hadamard_step(a: usize, b: usize, flip: bool) -> (s: Step)
    ensures
        s@ == hadamard(a as int, b as int, flip),
{
    Step { rotation: false, a, b, angle: 0, flip }
}

/// `t` after one step, with Hadamard outcomes limited to `r` bits.
pub open spec fn stepped(t: Seq<i64>, s: Move, r: int) -> Seq<i64> {
    let (a, b) = (s.a, s.b);
    if s.rotation {
        let x = round2(t[a] * cos(s.angle) - t[b] * sin(s.angle), 12) as i64;
        let y = round2(t[a] * sin(s.angle) + t[b] * cos(s.angle), 12) as i64;
        if s.flip {
            t.update(a, y).update(b, x)
        } else {
            t.update(a, x).update(b, y)
        }
    } else {
        let (p, q) = if s.flip {
            (b, a)
        } else {
            (a, b)
        };
        t.update(p, clip(t[p] + t[q], r) as i64).update(q, clip(t[p] - t[q], r) as i64)
    }
}

/// Every value of `t` has magnitude at most `m`.
pub open spec fn bounded(t: Seq<i64>, m: int) -> bool {
    forall|i: int| 0 <= i < t.len() ==> -m <= #[trigger] t[i] <= m
}

/// A rotation at most doubles what it is given.
proof fn lemma_rotation_bound(x: int, y: int, c: int, d: int, m: int)
    requires
        -m <= x <= m,
        -m <= y <= m,
        -4096 <= c <= 4096,
        -4096 <= d <= 4096,
        0 <= m,
    ensures
        -8192 * m <= x * c + y * d <= 8192 * m,
        -4096 * m <= x * c <= 4096 * m,
        -4096 * m <= y * d <= 4096 * m,
{
    assert(-4096 * m <= x * c <= 4096 * m) by (nonlinear_arith)
        requires
            -m <= x <= m,
            -4096 <= c <= 4096,
    ;
    assert(-4096 * m <= y * d <= 4096 * m) by (nonlinear_arith)
        requires
            -m <= y <= m,
            -4096 <= d <= 4096,
    ;
}

/// Apply one step, given that the values it works on have magnitude at most `m`.
fn apply_step(t: &mut [i64; 64], s: Step, r: u32, Ghost(m): Ghost<int>)
    requires
        s.a < 64,
        s.b < 64,
        s.a != s.b,
        -1000 <= s.angle <= 1000,
        1 <= r <= 40,
        p2(r - 1) <= m <= 0x1_0000_0000_0000,
        -m <= old(t)@[s.a as int] <= m,
        -m <= old(t)@[s.b as int] <= m,
    ensures
        final(t)@ == stepped(old(t)@, s@, r as int),
        forall|i: int| 0 <= i < 64 && i != s.a && i != s.b ==> final(t)@[i] == #[trigger] old(t)@[i],
        s.rotation ==> -2 * m <= final(t)@[s.a as int] <= 2 * m && -2 * m <= final(t)@[s.b as int] <= 2 * m,
        !s.rotation ==> -m <= final(t)@[s.a as int] <= m && -m <= final(t)@[s.b as int] <= m,
{
    proof {
        lemma_p2_pos(r - 1);
    }
    let ta = t[s.a];
    let tb = t[s.b];
    if s.rotation {
        let c = cos128(s.angle);
        let d = sin128(s.angle);
        proof {
            lemma_rotation_bound(ta as int, tb as int, c as int, -d, m);
            lemma_rotation_bound(ta as int, tb as int, d as int, c as int, m);
            assert(tb * (-d) == -(tb * d)) by (nonlinear_arith);
            lemma_p2_values();
        }
        let x = round2_i64(ta * c - tb * d, 12);
        let y = round2_i64(ta * d + tb * c, 12);
        if s.flip {
            t[s.a] = y;
            t[s.b] = x;
        } else {
            t[s.a] = x;
            t[s.b] = y;
        }
    } else if s.flip {
        t[s.b] = clip_signed(tb + ta, r);
        t[s.a] = clip_signed(tb - ta, r);
    } else {
        t[s.a] = clip_signed(ta + tb, r);
        t[s.b] = clip_signed(ta - tb, r);
    }
}

/// How many steps each stage of the DCT network has.
pub const DCT_LEN: [usize; 30] = [16, 8, 16, 4, 8, 8, 2, 4, 4, 16, 2, 2, 2, 8, 8, 2, 1, 4, 4, 16, 4, 2, 8, 8, 8, 4, 16, 16, 8, 32];

/// The least base-two logarithm of the size at which a stage of the DCT network runs.
pub const DCT_MIN: [usize; 30] = [6, 5, 6, 4, 5, 6, 3, 4, 5, 6, 2, 3, 4, 5, 6, 2, 3, 4, 5, 6, 3, 4, 5, 6, 4, 5, 6, 5, 6, 6];

/// How many steps each stage of the eight-point ADST network has.
pub const ADST8_LEN: [usize; 5] = [4, 4, 2, 4, 2];

/// How many steps each stage of the sixteen-point ADST network has.
pub const ADST16_LEN: [usize; 7] = [8, 8, 4, 8, 4, 8, 4];

/// The `k`-th step of a stage of the inverse DCT network.
pub open spec fn dct(stage: int, k: int) -> Move {
    if stage == 0 {
        rotation(32 + k, 63 - k, 63 - 4 * reversed(4, k), false)
    } else if stage == 1 {
        rotation(16 + k, 31 - k, 6 + 8 * reversed(3, 7 - k), false)
    } else if stage == 2 {
        hadamard(32 + 2 * k, 33 + 2 * k, k % 2 == 1)
    } else if stage == 3 {
        rotation(8 + k, 15 - k, 12 + 16 * reversed(2, 3 - k), false)
    } else if stage == 4 {
        hadamard(16 + 2 * k, 17 + 2 * k, k % 2 == 1)
    } else if stage == 5 {
        rotation(62 - 4 * (k / 2) - k % 2, 33 + 4 * (k / 2) + k % 2, 60 - 16 * reversed(2, k / 2) + 64 * (k % 2), true)
    } else if stage == 6 {
        rotation(4 + k, 7 - k, 56 - 32 * k, false)
    } else if stage == 7 {
        hadamard(8 + 2 * k, 9 + 2 * k, k % 2 == 1)
    } else if stage == 8 {
        rotation(30 - 4 * (k / 2) - k % 2, 17 + 4 * (k / 2) + k % 2, 24 + 64 * (k % 2) + 32 * (1 - k / 2), true)
    } else if stage == 9 {
        hadamard(32 + 4 * (k / 2) + k % 2, 35 + 4 * (k / 2) - k % 2, k / 2 % 2 == 1)
    } else if stage == 10 {
        rotation(2 * k, 2 * k + 1, 32 + 16 * k, k == 0)
    } else if stage == 11 {
        hadamard(4 + 2 * k, 5 + 2 * k, k == 1)
    } else if stage == 12 {
        rotation(14 - k, 9 + k, 48 + 64 * k, true)
    } else if stage == 13 {
        hadamard(16 + 4 * (k / 2) + k % 2, 19 + 4 * (k / 2) - k % 2, k / 2 % 2 == 1)
    } else if stage == 14 {
        rotation(61 - 8 * (k / 4) - k % 4, 34 + 8 * (k / 4) + k % 4, 56 - 32 * (k / 4) + 64 * (k % 4 / 2), true)
    } else if stage == 15 {
        hadamard(k, 3 - k, false)
    } else if stage == 16 {
        rotation(6, 5, 32, true)
    } else if stage == 17 {
        hadamard(8 + 4 * (k / 2) + k % 2, 11 + 4 * (k / 2) - k % 2, k / 2 == 1)
    } else if stage == 18 {
        rotation(29 - k, 18 + k, 48 + 64 * (k / 2), true)
    } else if stage == 19 {
        hadamard(32 + 8 * (k / 4) + k % 4, 39 + 8 * (k / 4) - k % 4, k / 4 % 2 == 1)
    } else if stage == 20 {
        hadamard(k, 7 - k, false)
    } else if stage == 21 {
        rotation(13 - k, 10 + k, 32, true)
    } else if stage == 22 {
        hadamard(16 + 8 * (k / 4) + k % 4, 23 + 8 * (k / 4) - k % 4, k / 4 == 1)
    } else if stage == 23 {
        rotation(59 - k, 36 + k, 48 + 64 * (k / 4), true)
    } else if stage == 24 {
        hadamard(k, 15 - k, false)
    } else if stage == 25 {
        rotation(27 - k, 20 + k, 32, true)
    } else if stage == 26 {
        hadamard(32 + 16 * (k % 2) + k / 2, 47 + 16 * (k % 2) - k / 2, k % 2 == 1)
    } else if stage == 27 {
        hadamard(k, 31 - k, false)
    } else if stage == 28 {
        rotation(55 - k, 40 + k, 32, true)
    } else {
        hadamard(k, 63 - k, false)
    }
}

/// The `k`-th step of a stage of the inverse ADST network of eight points.
pub open spec fn adst8(stage: int, k: int) -> Move {
    if stage == 0 {
        rotation(2 * k, 2 * k + 1, 60 - 16 * k, true)
    } else if stage == 1 {
        hadamard(k, 4 + k, false)
    } else if stage == 2 {
        rotation(4 + 3 * k, 5 + k, 48 - 32 * k, true)
    } else if stage == 3 {
        hadamard(4 * (k % 2) + k / 2, 2 + 4 * (k % 2) + k / 2, false)
    } else {
        rotation(2 + 4 * k, 3 + 4 * k, 32, true)
    }
}

/// The `k`-th step of a stage of the inverse ADST network of sixteen points.
pub open spec fn adst16(stage: int, k: int) -> Move {
    if stage == 0 {
        rotation(2 * k, 2 * k + 1, 62 - 8 * k, true)
    } else if stage == 1 {
        hadamard(k, 8 + k, false)
    } else if stage == 2 {
        rotation(8 + 2 * (k / 2) + 5 * (k % 2), 9 + 2 * (k / 2) + 3 * (k % 2), if k % 2 == 0 { 56 - 32 * (k / 2) } else { 8 + 32 * (k / 2) }, true)
    } else if stage == 3 {
        hadamard(8 * (k % 2) + k / 2, 4 + 8 * (k % 2) + k / 2, false)
    } else if stage == 4 {
        rotation(4 + 8 * (k % 2) + 3 * (k / 2), 5 + 8 * (k % 2) + k / 2, 48 - 32 * (k / 2), true)
    } else if stage == 5 {
        hadamard(4 * (k % 4) + k / 4, 2 + 4 * (k % 4) + k / 4, false)
    } else {
        rotation(2 + 4 * k, 3 + 4 * k, 32, true)
    }
}

/// The networks.
#[derive(Clone, Copy, PartialEq, Eq, Structural)]
pub enum Network {
    /// The inverse DCT, of up to 64 points.
    Dct,
    /// The inverse ADST of eight points.
    Adst8,
    /// The inverse ADST of sixteen points.
    Adst16,
}

impl Network {
    /// How many stages the network has.
    pub open spec fn depth(self) -> int {
        match self {
            Network::Dct => 30,
            Network::Adst8 => 5,
            Network::Adst16 => 7,
        }
    }

    /// How many steps a stage has.
    pub open spec fn len(self, stage: int) -> int {
        match self {
            Network::Dct => DCT_LEN@[stage] as int,
            Network::Adst8 => ADST8_LEN@[stage] as int,
            Network::Adst16 => ADST16_LEN@[stage] as int,
        }
    }

    /// The `k`-th step of a stage.
    pub open spec fn step(self, stage: int, k: int) -> Move {
        match self {
            Network::Dct => dct(stage, k),
            Network::Adst8 => adst8(stage, k),
            Network::Adst16 => adst16(stage, k),
        }
    }

    /// Whether a stage runs on an array of `2^n` values.
    pub open spec fn runs(self, stage: int, n: int) -> bool {
        self == Network::Dct ==> DCT_MIN@[stage] <= n
    }

    /// Whether a stage is made of rotations.
    pub open spec fn rotates(self, stage: int) -> bool {
        self.step(stage, 0).rotation
    }
}

/// `t` after the first `k` steps of a stage.
pub open spec fn partial_stage(t: Seq<i64>, net: Network, stage: int, k: int, r: int) -> Seq<i64>
    decreases k,
{
    if k <= 0 {
        t
    } else {
        stepped(partial_stage(t, net, stage, k - 1, r), net.step(stage, k - 1), r)
    }
}

/// `t` after the first `stages` stages of a network, at size `2^n`.
pub open spec fn partial_network(t: Seq<i64>, net: Network, n: int, stages: int, r: int) -> Seq<i64>
    decreases stages,
{
    if stages <= 0 {
        t
    } else {
        let before = partial_network(t, net, n, stages - 1, r);
        if net.runs(stages - 1, n) {
            partial_stage(before, net, stages - 1, net.len(stages - 1), r)
        } else {
            before
        }
    }
}

/// `t` after a whole network, at size `2^n`, with Hadamard outcomes limited to `r` bits.
pub open spec fn through_network(t: Seq<i64>, net: Network, n: int, r: int) -> Seq<i64> {
    partial_network(t, net, n, net.depth(), r)
}

/// The steps of a stage are of one kind and work on positions of the array.
pub proof fn lemma_step_shape(net: Network, stage: int, k: int)
    requires
        0 <= stage < net.depth(),
        0 <= k < net.len(stage),
    ensures
        ({
            let s = net.step(stage, k);
            &&& 0 <= s.a < 64
            &&& 0 <= s.b < 64
            &&& s.a != s.b
            &&& s.rotation == net.rotates(stage)
            &&& -100 <= s.angle <= 300
        }),
{
    lemma_reversed(4, k);
    if k <= 7 {
        lemma_reversed(3, 7 - k);
    }
    if k <= 3 {
        lemma_reversed(2, 3 - k);
    }
    lemma_reversed(2, k / 2);
    lemma_p2_values();
}

/// No two steps of a stage share a position.
pub proof fn lemma_steps_disjoint(net: Network, stage: int, i: int, k: int)
    requires
        0 <= stage < net.depth(),
        0 <= i < k < net.len(stage),
    ensures
        ({
            let (s, u) = (net.step(stage, i), net.step(stage, k));
            s.a != u.a && s.a != u.b && s.b != u.a && s.b != u.b
        }),
{
}

/// A step of the first third of the DCT network.
fn dct_first(stage: usize, k: usize) -> (s: Step)
    requires
        stage < 10,
        k < DCT_LEN@[stage as int],
    ensures
        s@ == dct(stage as int, k as int),
{
    proof {
        lemma_p2_values();
    }
    let z = k as i32;
    if stage == 0 {
        rotation_step(32 + k, 63 - k, 63 - 4 * (brev(4, k) as i32), false)
    } else if stage == 1 {
        rotation_step(16 + k, 31 - k, 6 + 8 * (brev(3, 7 - k) as i32), false)
    } else if stage == 2 {
        hadamard_step(32 + 2 * k, 33 + 2 * k, k % 2 == 1)
    } else if stage == 3 {
        rotation_step(8 + k, 15 - k, 12 + 16 * (brev(2, 3 - k) as i32), false)
    } else if stage == 4 {
        hadamard_step(16 + 2 * k, 17 + 2 * k, k % 2 == 1)
    } else if stage == 5 {
        rotation_step(62 - 4 * (k / 2) - k % 2, 33 + 4 * (k / 2) + k % 2, 60 - 16 * (brev(2, k / 2) as i32) + 64 * (z % 2), true)
    } else if stage == 6 {
        rotation_step(4 + k, 7 - k, 56 - 32 * z, false)
    } else if stage == 7 {
        hadamard_step(8 + 2 * k, 9 + 2 * k, k % 2 == 1)
    } else if stage == 8 {
        rotation_step(30 - 4 * (k / 2) - k % 2, 17 + 4 * (k / 2) + k % 2, 24 + 64 * (z % 2) + 32 * (1 - z / 2), true)
    } else {
        hadamard_step(32 + 4 * (k / 2) + k % 2, 35 + 4 * (k / 2) - k % 2, k / 2 % 2 == 1)
    }
}

/// A step of the second third of the DCT network.
fn dct_second(stage: usize, k: usize) -> (s: Step)
    requires
        10 <= stage < 20,
        k < DCT_LEN@[stage as int],
    ensures
        s@ == dct(stage as int, k as int),
{
    proof {
        lemma_p2_values();
    }
    let z = k as i32;
    if stage == 10 {
        rotation_step(2 * k, 2 * k + 1, 32 + 16 * z, k == 0)
    } else if stage == 11 {
        hadamard_step(4 + 2 * k, 5 + 2 * k, k == 1)
    } else if stage == 12 {
        rotation_step(14 - k, 9 + k, 48 + 64 * z, true)
    } else if stage == 13 {
        hadamard_step(16 + 4 * (k / 2) + k % 2, 19 + 4 * (k / 2) - k % 2, k / 2 % 2 == 1)
    } else if stage == 14 {
        rotation_step(61 - 8 * (k / 4) - k % 4, 34 + 8 * (k / 4) + k % 4, 56 - 32 * (z / 4) + 64 * (z % 4 / 2), true)
    } else if stage == 15 {
        hadamard_step(k, 3 - k, false)
    } else if stage == 16 {
        rotation_step(6, 5, 32, true)
    } else if stage == 17 {
        hadamard_step(8 + 4 * (k / 2) + k % 2, 11 + 4 * (k / 2) - k % 2, k / 2 == 1)
    } else if stage == 18 {
        rotation_step(29 - k, 18 + k, 48 + 64 * (z / 2), true)
    } else {
        hadamard_step(32 + 8 * (k / 4) + k % 4, 39 + 8 * (k / 4) - k % 4, k / 4 % 2 == 1)
    }
}

/// A step of the last third of the DCT network.
fn dct_third(stage: usize, k: usize) -> (s: Step)
    requires
        20 <= stage < 30,
        k < DCT_LEN@[stage as int],
    ensures
        s@ == dct(stage as int, k as int),
{
    proof {
        lemma_p2_values();
    }
    let z = k as i32;
    if stage == 20 {
        hadamard_step(k, 7 - k, false)
    } else if stage == 21 {
        rotation_step(13 - k, 10 + k, 32, true)
    } else if stage == 22 {
        hadamard_step(16 + 8 * (k / 4) + k % 4, 23 + 8 * (k / 4) - k % 4, k / 4 == 1)
    } else if stage == 23 {
        rotation_step(59 - k, 36 + k, 48 + 64 * (z / 4), true)
    } else if stage == 24 {
        hadamard_step(k, 15 - k, false)
    } else if stage == 25 {
        rotation_step(27 - k, 20 + k, 32, true)
    } else if stage == 26 {
        hadamard_step(32 + 16 * (k % 2) + k / 2, 47 + 16 * (k % 2) - k / 2, k % 2 == 1)
    } else if stage == 27 {
        hadamard_step(k, 31 - k, false)
    } else if stage == 28 {
        rotation_step(55 - k, 40 + k, 32, true)
    } else {
        hadamard_step(k, 63 - k, false)
    }
}

/// The step that `dct` names.
fn dct_step(stage: usize, k: usize) -> (s: Step)
    requires
        stage < 30,
        k < DCT_LEN@[stage as int],
    ensures
        s@ == dct(stage as int, k as int),
{
    if stage < 10 {
        dct_first(stage, k)
    } else if stage < 20 {
        dct_second(stage, k)
    } else {
        dct_third(stage, k)
    }
}

/// The step that `adst8` names.
fn adst8_step(stage: usize, k: usize) -> (s: Step)
    requires
        stage < 5,
        k < ADST8_LEN@[stage as int],
    ensures
        s@ == adst8(stage as int, k as int),
{
    let z = k as i32;
    if stage == 0 {
        rotation_step(2 * k, 2 * k + 1, 60 - 16 * z, true)
    } else if stage == 1 {
        hadamard_step(k, 4 + k, false)
    } else if stage == 2 {
        rotation_step(4 + 3 * k, 5 + k, 48 - 32 * z, true)
    } else if stage == 3 {
        hadamard_step(4 * (k % 2) + k / 2, 2 + 4 * (k % 2) + k / 2, false)
    } else {
        rotation_step(2 + 4 * k, 3 + 4 * k, 32, true)
    }
}

/// The step that `adst16` names.
fn adst16_step(stage: usize, k: usize) -> (s: Step)
    requires
        stage < 7,
        k < ADST16_LEN@[stage as int],
    ensures
        s@ == adst16(stage as int, k as int),
{
    let z = k as i32;
    if stage == 0 {
        rotation_step(2 * k, 2 * k + 1, 62 - 8 * z, true)
    } else if stage == 1 {
        hadamard_step(k, 8 + k, false)
    } else if stage == 2 {
        rotation_step(8 + 2 * (k / 2) + 5 * (k % 2), 9 + 2 * (k / 2) + 3 * (k % 2), if z % 2 == 0 { 56 - 32 * (z / 2) } else { 8 + 32 * (z / 2) }, true)
    } else if stage == 3 {
        hadamard_step(8 * (k % 2) + k / 2, 4 + 8 * (k % 2) + k / 2, false)
    } else if stage == 4 {
        rotation_step(4 + 8 * (k % 2) + 3 * (k / 2), 5 + 8 * (k % 2) + k / 2, 48 - 32 * (z / 2), true)
    } else if stage == 5 {
        hadamard_step(4 * (k % 4) + k / 4, 2 + 4 * (k % 4) + k / 4, false)
    } else {
        rotation_step(2 + 4 * k, 3 + 4 * k, 32, true)
    }
}

/// One once `stage` is past `other`.
spec fn past(stage: int, other: int) -> int {
    if stage > other {
        1
    } else {
        0
    }
}

/// How many of the first `stage` stages are made of rotations.
spec fn rotations_before(net: Network, stage: int) -> int {
    match net {
        Network::Dct => past(stage, 0) + past(stage, 1) + past(stage, 3) + past(stage, 5) + past(stage, 6) + past(stage, 8) + past(stage, 10) + past(stage, 12) + past(stage, 14) + past(stage, 16) + past(stage, 18) + past(stage, 21) + past(stage, 23) + past(stage, 25) + past(stage, 28),
        Network::Adst8 => past(stage, 0) + past(stage, 2) + past(stage, 4),
        Network::Adst16 => past(stage, 0) + past(stage, 2) + past(stage, 4) + past(stage, 6),
    }
}

/// Every rotation stage counts once, and no network has more than fifteen.
proof fn lemma_rotations(net: Network, stage: int)
    requires
        0 <= stage < net.depth(),
    ensures
        rotations_before(net, stage + 1) == rotations_before(net, stage) + if net.rotates(stage) {
            1int
        } else {
            0
        },
        0 <= rotations_before(net, stage) <= rotations_before(net, stage + 1) <= 15,
{
}

/// A step of a network.
fn network_step(net: Network, stage: usize, k: usize) -> (s: Step)
    requires
        stage < net.depth(),
        k < net.len(stage as int),
    ensures
        s@ == net.step(stage as int, k as int),
{
    match net {
        Network::Dct => dct_step(stage, k),
        Network::Adst8 => adst8_step(stage, k),
        Network::Adst16 => adst16_step(stage, k),
    }
}

/// Run one stage of a network on values of magnitude at most `m`.
fn run_stage(t: &mut [i64; 64], net: Network, stage: usize, r: u32, Ghost(m): Ghost<int>)
    requires
        stage < net.depth(),
        1 <= r <= 40,
        p2(r - 1) <= m <= 0x1_0000_0000_0000,
        bounded(old(t)@, m),
    ensures
        final(t)@ == partial_stage(old(t)@, net, stage as int, net.len(stage as int), r as int),
        bounded(
            final(t)@,
            if net.rotates(stage as int) {
                2 * m
            } else {
                m
            },
        ),
{
    let len: usize = match net {
        Network::Dct => DCT_LEN[stage],
        Network::Adst8 => ADST8_LEN[stage],
        Network::Adst16 => ADST16_LEN[stage],
    };
    let ghost start = t@;
    let ghost reach = if net.rotates(stage as int) {
        2 * m
    } else {
        m
    };
    let mut k: usize = 0;
    proof {
        lemma_p2_pos(r - 1);
    }
    while k < len
        invariant
            k <= len,
            len == net.len(stage as int),
            stage < net.depth(),
            1 <= r <= 40,
            p2(r - 1) <= m <= 0x1_0000_0000_0000,
            0 <= m <= reach,
            reach == if net.rotates(stage as int) {
                2 * m
            } else {
                m
            },
            t@ == partial_stage(start, net, stage as int, k as int, r as int),
            bounded(t@, reach),
            forall|i: int|
                0 <= i < 64 && (forall|j: int|
                    0 <= j < k ==> (#[trigger] net.step(stage as int, j)).a != i && net.step(
                        stage as int,
                        j,
                    ).b != i) ==> -m <= #[trigger] t@[i] <= m,
        decreases len - k,
    {
        let s = network_step(net, stage, k);
        let ghost here = t@;
        proof {
            lemma_step_shape(net, stage as int, k as int);
            assert forall|j: int| 0 <= j < k implies (#[trigger] net.step(stage as int, j)).a != s.a && net.step(
                stage as int,
                j,
            ).b != s.a && net.step(stage as int, j).a != s.b && net.step(stage as int, j).b != s.b by {
                lemma_steps_disjoint(net, stage as int, j, k as int);
            }
        }
        apply_step(t, s, r, Ghost(m));
        proof {
            assert forall|i: int|
                0 <= i < 64 && (forall|j: int|
                    0 <= j < k + 1 ==> (#[trigger] net.step(stage as int, j)).a != i && net.step(
                        stage as int,
                        j,
                    ).b != i) implies -m <= #[trigger] t@[i] <= m by {
                assert(net.step(stage as int, k as int).a != i);
                assert(t@[i] == here[i]);
            }
            assert forall|i: int| 0 <= i < 64 implies -reach <= #[trigger] t@[i] <= reach by {
                if i != s.a && i != s.b {
                    assert(t@[i] == here[i]);
                }
            }
        }
        k = k + 1;
    }
}

/// Run a whole network, at size `2^n`, on values of magnitude at most `m`.
fn run_network(t: &mut [i64; 64], net: Network, n: u32, r: u32, Ghost(m): Ghost<int>)
    requires
        1 <= r <= 40,
        p2(r - 1) <= m <= 0x1_0000_0000,
        bounded(old(t)@, m),
    ensures
        final(t)@ == through_network(old(t)@, net, n as int, r as int),
        bounded(final(t)@, 0x8000 * m),
{
    let depth: usize = match net {
        Network::Dct => 30,
        Network::Adst8 => 5,
        Network::Adst16 => 7,
    };
    let ghost start = t@;
    let mut stage: usize = 0;
    proof {
        lemma_p2_values();
        lemma_p2_pos(r - 1);
        assert(rotations_before(net, 0) == 0);
    }
    while stage < depth
        invariant
            stage <= depth,
            depth == net.depth(),
            1 <= r <= 40,
            0 < p2(r - 1) <= m <= 0x1_0000_0000,
            0 <= rotations_before(net, stage as int) <= 15,
            t@ == partial_network(start, net, n as int, stage as int, r as int),
            bounded(t@, m * p2(rotations_before(net, stage as int))),
        decreases depth - stage,
    {
        let ghost e = rotations_before(net, stage as int);
        let ghost here = m * p2(e);
        proof {
            lemma_rotations(net, stage as int);
            lemma_p2_mono(e, 15);
            lemma_p2_values();
            lemma_p2_pos(e);
            assert(m <= here <= m * 0x8000) by (nonlinear_arith)
                requires
                    here == m * p2(e),
                    1 <= p2(e) <= 0x8000,
                    m > 0,
            ;
            assert(m * p2(e + 1) == 2 * here) by (nonlinear_arith)
                requires
                    here == m * p2(e),
                    p2(e + 1) == 2 * p2(e),
            ;
        }
        let runs: bool = match net {
            Network::Dct => DCT_MIN[stage] <= n as usize,
            _ => true,
        };
        if runs {
            run_stage(t, net, stage, r, Ghost(here));
        }
        stage = stage + 1;
    }
    proof {
        let e = rotations_before(net, depth as int);
        lemma_p2_mono(e, 15);
        lemma_p2_pos(e);
        assert(m * p2(e) <= 0x8000 * m) by (nonlinear_arith)
            requires
                1 <= p2(e) <= 0x8000,
                m > 0,
        ;
    }
}

/// Which one-dimensional transform a pass over rows or columns runs, before flipping.
#[derive(Clone, Copy, PartialEq, Eq, Structural, Debug)]
pub enum Kind {
    /// The inverse DCT.
    Dct,
    /// The inverse ADST.
    Adst,
    /// The scaled identity.
    Identity,
}

/// The input order of the DCT network: positions with their bits reversed.
pub open spec fn dct_order(t: Seq<i64>, n: int) -> Seq<i64> {
    Seq::new(
        64,
        |i: int|
            if i < p2(n) {
                t[reversed(n, i)]
            } else {
                t[i]
            },
    )
}

/// The input position that position `i` of an ADST network of `len` points takes its value from.
pub open spec fn adst_source(len: int, i: int) -> int {
    if i % 2 == 1 {
        i - 1
    } else {
        len - i - 1
    }
}

/// The network position that output `i` of an ADST of `2^n` points comes from.
pub open spec fn adst_target(n: int, i: int) -> int {
    let a = i / 8 % 2;
    let b = (i / 4 + i / 8) % 2;
    let c = (i / 2 + i / 4) % 2;
    let d = (i + i / 2) % 2;
    (8 * d + 4 * c + 2 * b + a) / p2(4 - n)
}

/// The input order of an ADST network of `2^n` points.
pub open spec fn adst_order(t: Seq<i64>, n: int) -> Seq<i64> {
    Seq::new(
        64,
        |i: int|
            if i < p2(n) {
                t[adst_source(p2(n), i)]
            } else {
                t[i]
            },
    )
}

/// The output order of an ADST network of `2^n` points; every second output changes sign.
pub open spec fn adst_output(t: Seq<i64>, n: int) -> Seq<i64> {
    Seq::new(
        64,
        |i: int|
            if i >= p2(n) {
                t[i]
            } else if i % 2 == 1 {
                (-t[adst_target(n, i)]) as i64
            } else {
                t[adst_target(n, i)]
            },
    )
}

/// The inverse ADST of four points.
pub open spec fn adst4(t: Seq<i64>) -> Seq<i64> {
    let p = 1321 * t[0] + 3803 * t[2] + 2482 * t[3];
    let q = 2482 * t[0] - 1321 * t[2] - 3803 * t[3];
    let m = 3344 * t[1];
    t.update(0, round2(p + m, 12) as i64).update(1, round2(q + m, 12) as i64).update(
        2,
        round2(3344 * (t[0] - t[2] + t[3]), 12) as i64,
    ).update(3, round2(p + q - m, 12) as i64)
}

/// The scaled identity at size `2^n`.
pub open spec fn scaled(x: int, n: int) -> int {
    if n == 2 {
        round2(x * 5793, 12)
    } else if n == 3 {
        x * 2
    } else if n == 4 {
        round2(x * 11586, 12)
    } else {
        x * 4
    }
}

/// The inverse Walsh-Hadamard transform of the first four values, each first
/// divided by `2^shift`.
pub open spec fn walsh(t: Seq<i64>, shift: int) -> Seq<i64> {
    let c = t[1] as int / p2(shift);
    let b = t[3] as int / p2(shift);
    let a = t[0] as int / p2(shift) + c;
    let d = t[2] as int / p2(shift) - b;
    let e = (a - d) / 2;
    t.update(0, (a - (e - b)) as i64).update(1, (e - b) as i64).update(2, (e - c) as i64).update(
        3,
        (d + (e - c)) as i64,
    )
}

/// `t` after the one-dimensional transform `kind` of `2^n` points.
#[verifier::opaque]
pub open spec fn transformed(t: Seq<i64>, kind: Kind, n: int, r: int) -> Seq<i64> {
    match kind {
        Kind::Dct => through_network(dct_order(t, n), Network::Dct, n, r),
        Kind::Adst => if n == 2 {
            adst4(t)
        } else if n == 3 {
            adst_output(through_network(adst_order(t, 3), Network::Adst8, 3, r), 3)
        } else {
            adst_output(through_network(adst_order(t, 4), Network::Adst16, 4, r), 4)
        },
        Kind::Identity => Seq::new(
            64,
            |i: int|
                if i < p2(n) {
                    scaled(t[i] as int, n) as i64
                } else {
                    t[i]
                },
        ),
    }
}

/// The inverse DCT of the first `2^n` values.
fn inverse_dct(t: &mut [i64; 64], n: u32, r: u32)
    requires
        2 <= n <= 6,
        1 <= r <= 24,
        bounded(old(t)@, 0x80_0000),
    ensures
        final(t)@ == through_network(dct_order(old(t)@, n as int), Network::Dct, n as int, r as int),
        bounded(final(t)@, 0x40_0000_0000),
{
    let copy = *t;
    proof {
        lemma_p2_values();
        lemma_p2_mono(n as int, 6);
        lemma_p2_mono(r - 1, 23);
        lemma_p2_add(20, 3);
    }
    let len = crate::math::pow2_usize(n);
    let mut i: usize = 0;
    while i < len
        invariant
            i <= len <= 64,
            len == p2(n as int),
            2 <= n <= 6,
            copy@ == old(t)@,
            bounded(copy@, 0x80_0000),
            forall|j: int| 0 <= j < i ==> #[trigger] t@[j] == copy@[reversed(n as int, j)] && 0 <= reversed(n as int, j)
                < 64,
            forall|j: int| i <= j < 64 ==> #[trigger] t@[j] == copy@[j],
        decreases len - i,
    {
        t[i] = copy[brev(n, i)];
        i = i + 1;
    }
    assert(t@ =~= dct_order(copy@, n as int));
    assert(bounded(t@, 0x80_0000));
    run_network(t, Network::Dct, n, r, Ghost(0x80_0000int));
}

/// The input permutation of an ADST of `2^n` points.
fn adst_permute_in(t: &mut [i64; 64], n: u32)
    requires
        3 <= n <= 4,
        bounded(old(t)@, 0x80_0000),
    ensures
        final(t)@ == adst_order(old(t)@, n as int),
        bounded(final(t)@, 0x80_0000),
{
    let copy = *t;
    proof {
        lemma_p2_values();
    }
    let len = crate::math::pow2_usize(n);
    let mut i: usize = 0;
    while i < len
        invariant
            i <= len,
            len == 8 || len == 16,
            len == p2(n as int),
            copy@ == old(t)@,
            bounded(copy@, 0x80_0000),
            forall|j: int| 0 <= j < i ==> #[trigger] t@[j] == copy@[adst_source(len as int, j)],
            forall|j: int| i <= j < 64 ==> #[trigger] t@[j] == copy@[j],
        decreases len - i,
    {
        let from = if i % 2 == 1 {
            i - 1
        } else {
            len - i - 1
        };
        t[i] = copy[from];
        i = i + 1;
    }
    assert(t@ =~= adst_order(copy@, n as int));
    assert forall|j: int| 0 <= j < 64 implies -0x80_0000 <= #[trigger] t@[j] <= 0x80_0000 by {
        if j < len {
            assert(t@[j] == copy@[adst_source(len as int, j)]);
        } else {
            assert(t@[j] == copy@[j]);
        }
    }
}

/// The output permutation of an ADST of `2^n` points.
fn adst_permute_out(t: &mut [i64; 64], n: u32)
    requires
        3 <= n <= 4,
        bounded(old(t)@, 0x40_0000_0000),
    ensures
        final(t)@ == adst_output(old(t)@, n as int),
        bounded(final(t)@, 0x40_0000_0000),
{
    let copy = *t;
    proof {
        lemma_p2_values();
    }
    let len = crate::math::pow2_usize(n);
    let div: usize = if n == 3 {
        2
    } else {
        1
    };
    let mut i: usize = 0;
    while i < len
        invariant
            i <= len,
            3 <= n <= 4,
            len == if n == 3 {
                8int
            } else {
                16
            },
            len == p2(n as int),
            div == p2(4 - n),
            div == if n == 3 {
                2int
            } else {
                1
            },
            copy@ == old(t)@,
            bounded(copy@, 0x40_0000_0000),
            forall|j: int| 0 <= j < i ==> #[trigger] t@[j] == adst_output(copy@, n as int)[j] && -0x40_0000_0000 <= t@[j]
                <= 0x40_0000_0000,
            forall|j: int| i <= j < 64 ==> #[trigger] t@[j] == copy@[j],
        decreases len - i,
    {
        let a = i / 8 % 2;
        let b = (i / 4 + i / 8) % 2;
        let c = (i / 2 + i / 4) % 2;
        let d = (i + i / 2) % 2;
        let from = (8 * d + 4 * c + 2 * b + a) / div;
        assert(from == adst_target(n as int, i as int));
        assert(-0x40_0000_0000 <= copy@[from as int] <= 0x40_0000_0000);
        t[i] = if i % 2 == 1 {
            -copy[from]
        } else {
            copy[from]
        };
        i = i + 1;
    }
    assert(t@ =~= adst_output(copy@, n as int));
    assert forall|j: int| 0 <= j < 64 implies -0x40_0000_0000 <= #[trigger] t@[j] <= 0x40_0000_0000 by {
        if j >= len {
            assert(t@[j] == copy@[j]);
        }
    }
}

/// The inverse ADST of four points.
fn inverse_adst4(t: &mut [i64; 64])
    requires
        bounded(old(t)@, 0x80_0000),
    ensures
        final(t)@ == adst4(old(t)@),
        bounded(final(t)@, 0x40_0000_0000),
{
    let (t0, t1, t2, t3) = (t[0], t[1], t[2], t[3]);
    proof {
        lemma_p2_values();
    }
    let p = 1321 * t0 + 3803 * t2 + 2482 * t3;
    let q = 2482 * t0 - 1321 * t2 - 3803 * t3;
    let m = 3344 * t1;
    t[0] = round2_i64(p + m, 12);
    t[1] = round2_i64(q + m, 12);
    t[2] = round2_i64(3344 * (t0 - t2 + t3), 12);
    t[3] = round2_i64(p + q - m, 12);
}

/// The inverse ADST of `2^n` points.
fn inverse_adst(t: &mut [i64; 64], n: u32, r: u32)
    requires
        2 <= n <= 6,
        1 <= r <= 24,
        bounded(old(t)@, 0x80_0000),
    ensures
        final(t)@ == transformed(old(t)@, Kind::Adst, n as int, r as int),
        bounded(final(t)@, 0x40_0000_0000),
{
    proof {
        reveal(transformed);
        lemma_p2_values();
        lemma_p2_mono(r - 1, 23);
        lemma_p2_add(20, 3);
    }
    if n == 2 {
        inverse_adst4(t);
    } else if n == 3 {
        adst_permute_in(t, 3);
        run_network(t, Network::Adst8, 3, r, Ghost(0x80_0000int));
        adst_permute_out(t, 3);
    } else {
        adst_permute_in(t, 4);
        run_network(t, Network::Adst16, 4, r, Ghost(0x80_0000int));
        adst_permute_out(t, 4);
    }
}

/// The scaled identity of the first `2^n` values.
fn inverse_identity(t: &mut [i64; 64], n: u32)
    requires
        2 <= n <= 6,
        bounded(old(t)@, 0x80_0000),
    ensures
        forall|r: int| final(t)@ == #[trigger] transformed(old(t)@, Kind::Identity, n as int, r),
        bounded(final(t)@, 0x40_0000_0000),
{
    proof {
        reveal(transformed);
        lemma_p2_values();
        lemma_p2_mono(n as int, 6);
    }
    let len = crate::math::pow2_usize(n);
    let ghost start = t@;
    let mut i: usize = 0;
    while i < len
        invariant
            i <= len <= 64,
            2 <= n <= 6,
            start == old(t)@,
            bounded(start, 0x80_0000),
            p2(12) == 4096,
            p2(11) == 2048,
            forall|j: int| 0 <= j < i ==> #[trigger] t@[j] == scaled(start[j] as int, n as int) && -0x40_0000_0000
                <= t@[j] <= 0x40_0000_0000,
            forall|j: int| i <= j < 64 ==> #[trigger] t@[j] == start[j],
        decreases len - i,
    {
        let x = t[i];
        assert(-0x80_0000 <= start[i as int] <= 0x80_0000);
        t[i] = if n == 2 {
            round2_i64(x * 5793, 12)
        } else if n == 3 {
            x * 2
        } else if n == 4 {
            round2_i64(x * 11586, 12)
        } else {
            x * 4
        };
        i = i + 1;
    }
    assert forall|j: int| 0 <= j < 64 implies -0x40_0000_0000 <= #[trigger] t@[j] <= 0x40_0000_0000 by {
        if j >= len {
            assert(t@[j] == start[j]);
        }
    }
    assert forall|r: int| t@ == #[trigger] transformed(start, Kind::Identity, n as int, r) by {
        assert(t@ =~= transformed(start, Kind::Identity, n as int, r));
    }
}

/// Run the one-dimensional transform `kind` on the first `2^n` values.
pub fn apply_1d(t: &mut [i64; 64], kind: Kind, n: u32, r: u32)
    requires
        2 <= n <= 6,
        1 <= r <= 24,
        bounded(old(t)@, 0x80_0000),
    ensures
        final(t)@ == transformed(old(t)@, kind, n as int, r as int),
        bounded(final(t)@, 0x40_0000_0000),
{
    match kind {
        Kind::Dct => {
            proof {
                reveal(transformed);
            }
            inverse_dct(t, n, r);
        },
        Kind::Adst => inverse_adst(t, n, r),
        Kind::Identity => inverse_identity(t, n),
    }
}

/// A value that is shifted down stays as small as it was.
proof fn lemma_shifted_bound(x: int, shift: int)
    requires
        -0x80_0000 <= x <= 0x80_0000,
        0 <= shift,
    ensures
        -0x80_0000 <= x / p2(shift) <= 0x80_0000,
{
    lemma_p2_pos(shift);
    let d = p2(shift);
    assert(-0x80_0000 <= x / d <= 0x80_0000) by (nonlinear_arith)
        requires
            -0x80_0000 <= x <= 0x80_0000,
            d >= 1,
    ;
}

/// The inverse Walsh-Hadamard transform of the first four values.
pub fn inverse_wht(t: &mut [i64; 64], shift: u32)
    requires
        shift <= 2,
        bounded(old(t)@, 0x80_0000),
    ensures
        final(t)@ == walsh(old(t)@, shift as int),
        bounded(final(t)@, 0x40_0000_0000),
{
    let ghost start = t@;
    let t0 = t[0];
    let t1 = t[1];
    let t2 = t[2];
    let t3 = t[3];
    proof {
        assert(p2(1) == 2) by {
            lemma_p2_values();
        }
        lemma_shifted_bound(t0 as int, shift as int);
        lemma_shifted_bound(t1 as int, shift as int);
        lemma_shifted_bound(t2 as int, shift as int);
        lemma_shifted_bound(t3 as int, shift as int);
    }
    let c = crate::math::shr_i64(t1, shift);
    let b = crate::math::shr_i64(t3, shift);
    let a = crate::math::shr_i64(t0, shift) + c;
    let d = crate::math::shr_i64(t2, shift) - b;
    let e = crate::math::shr_i64(a - d, 1);
    t[0] = a - (e - b);
    t[1] = e - b;
    t[2] = e - c;
    t[3] = d + (e - c);
    proof {
        assert(t@ =~= walsh(start, shift as int));
        assert forall|i: int| 0 <= i < 64 implies -0x40_0000_0000 <= #[trigger] t@[i] <= 0x40_0000_0000 by {
            if i >= 4 {
                assert(t@[i] == start[i]);
            }
        }
    }
}

/// Every value of `t` is zero.
pub open spec fn zero(t: Seq<i64>) -> bool {
    t.len() == 64 && forall|i: int| 0 <= i < 64 ==> #[trigger] t[i] == 0
}

/// A network maps zero to zero.
pub proof fn lemma_network_zero(t: Seq<i64>, net: Network, n: int, stages: int, r: int)
    requires
        zero(t),
        0 <= stages <= net.depth(),
        1 <= r,
    ensures
        zero(partial_network(t, net, n, stages, r)),
    decreases stages,
{
    if stages > 0 {
        lemma_network_zero(t, net, n, stages - 1, r);
        let before = partial_network(t, net, n, stages - 1, r);
        if net.runs(stages - 1, n) {
            lemma_stage_zero(before, net, stages - 1, net.len(stages - 1), r);
        }
    }
}

/// A stage maps zero to zero.
proof fn lemma_stage_zero(t: Seq<i64>, net: Network, stage: int, k: int, r: int)
    requires
        zero(t),
        0 <= stage < net.depth(),
        0 <= k <= net.len(stage),
        1 <= r,
    ensures
        zero(partial_stage(t, net, stage, k, r)),
    decreases k,
{
    if k > 0 {
        lemma_stage_zero(t, net, stage, k - 1, r);
        lemma_step_shape(net, stage, k - 1);
        let before = partial_stage(t, net, stage, k - 1, r);
        let s = net.step(stage, k - 1);
        assert(before[s.a] == 0 && before[s.b] == 0);
        assert(0 * cos(s.angle) == 0 && 0 * sin(s.angle) == 0) by (nonlinear_arith);
        lemma_p2_values();
        lemma_p2_pos(r - 1);
    }
}

/// Every one-dimensional transform maps zero to zero.
pub proof fn lemma_transformed_zero(t: Seq<i64>, kind: Kind, n: int, r: int)
    requires
        zero(t),
        2 <= n <= 6,
        1 <= r,
    ensures
        zero(transformed(t, kind, n, r)),
{
    reveal(transformed);
    lemma_p2_values();
    match kind {
        Kind::Dct => {
            assert forall|i: int| 0 <= i < 64 implies #[trigger] dct_order(t, n)[i] == 0 by {
                lemma_reversed(n, i);
            }
            lemma_network_zero(dct_order(t, n), Network::Dct, n, 30, r);
        },
        Kind::Adst => {
            if n == 3 {
                lemma_network_zero(adst_order(t, 3), Network::Adst8, 3, 5, r);
            } else if n != 2 {
                lemma_network_zero(adst_order(t, 4), Network::Adst16, 4, 7, r);
            }
        },
        Kind::Identity => {},
    }
}

/// The Walsh-Hadamard transform maps zero to zero.
pub proof fn lemma_walsh_zero(t: Seq<i64>, shift: int)
    requires
        zero(t),
        0 <= shift <= 2,
    ensures
        zero(walsh(t, shift)),
{
    lemma_p2_values();
}

/// The forward Walsh-Hadamard transform of four values, by lifting.
pub open spec fn forward_walsh(x0: int, x1: int, x2: int, x3: int) -> (int, int, int, int) {
    let a = x0 + x1;
    let d = x3 - x2;
    let e = (a - d) / 2;
    (a - (e - x2), e - x2, d + (e - x1), e - x1)
}

/// The inverse Walsh-Hadamard transform undoes the forward one: from the four lifted
/// values it gives the four it was made of back, in their order, and leaves the rest
/// of the array.
pub proof fn lemma_walsh_undoes(t: Seq<i64>, x0: int, x1: int, x2: int, x3: int)
    requires
        t.len() == 64,
        i64::MIN <= x0 <= i64::MAX,
        i64::MIN <= x1 <= i64::MAX,
        i64::MIN <= x2 <= i64::MAX,
        i64::MIN <= x3 <= i64::MAX,
        ({
            let a = x0 + x1;
            let d = x3 - x2;
            let e = (a - d) / 2;
            &&& t[0] == a - (e - x2)
            &&& t[1] == e - x2
            &&& t[2] == d + (e - x1)
            &&& t[3] == e - x1
        }),
    ensures
        walsh(t, 0)[0] == x0,
        walsh(t, 0)[1] == x1,
        walsh(t, 0)[2] == x2,
        walsh(t, 0)[3] == x3,
        forall|i: int| 4 <= i < 64 ==> #[trigger] walsh(t, 0)[i] == t[i],
{
    lemma_p2_values();
}

/// What the inverse Walsh-Hadamard transform gives determines its input: the forward
/// transform takes it back.
pub proof fn lemma_walsh_is_undone(t: Seq<i64>)
    requires
        t.len() == 64,
        bounded(t, 0x40_0000_0000),
    ensures
        ({
            let u = walsh(t, 0);
            forward_walsh(u[0] as int, u[1] as int, u[2] as int, u[3] as int) == (
                t[0] as int,
                t[1] as int,
                t[2] as int,
                t[3] as int,
            )
        }),
{
    lemma_p2_values();
    assert(-0x40_0000_0000 <= t[0] <= 0x40_0000_0000 && -0x40_0000_0000 <= t[1] <= 0x40_0000_0000 && -0x40_0000_0000
        <= t[2] <= 0x40_0000_0000 && -0x40_0000_0000 <= t[3] <= 0x40_0000_0000);
}

/// A shift drops as many low bits of each of the four values and nothing else: what
/// was scaled up by a power of two comes out as if it had not been.
pub proof fn lemma_walsh_shift(t: Seq<i64>, u: Seq<i64>, shift: int)
    requires
        t.len() == 64,
        u.len() == 64,
        0 <= shift <= 2,
        forall|i: int|
            0 <= i < 4 ==> u[i] * p2(shift) <= #[trigger] t[i] < u[i] * p2(shift) + p2(shift),
    ensures
        forall|i: int| 0 <= i < 4 ==> #[trigger] walsh(t, shift)[i] == walsh(u, 0)[i],
{
    lemma_p2_values();
    assert forall|i: int| 0 <= i < 4 implies #[trigger] t[i] as int / p2(shift) == u[i] by {
        let q = p2(shift);
        let (x, y) = (t[i] as int, u[i] as int);
        vstd::arithmetic::div_mod::lemma_fundamental_div_mod_converse(x, q, y, x - y * q);
    }
    assert(t[0] as int / p2(shift) == u[0] && t[1] as int / p2(shift) == u[1] && t[2] as int / p2(shift) == u[2]
        && t[3] as int / p2(shift) == u[3]);
}

/// The second value alone is spread evenly: half of it over the first two places, and
/// its opposite over the last two. Likewise for the other three, each with its own
/// signs.
pub proof fn lemma_walsh_basis(t: Seq<i64>, which: int, k: int)
    requires
        t.len() == 64,
        0 <= which < 4,
        -0x1000_0000_0000 <= k <= 0x1000_0000_0000,
        t[which] == 2 * k,
        forall|i: int| 0 <= i < 4 && i != which ==> #[trigger] t[i] == 0,
    ensures
        which == 0 ==> walsh(t, 0).take(4) == seq![k as i64, k as i64, k as i64, k as i64],
        which == 1 ==> walsh(t, 0).take(4) == seq![k as i64, k as i64, (-k) as i64, (-k) as i64],
        which == 2 ==> walsh(t, 0).take(4) == seq![k as i64, (-k) as i64, (-k) as i64, k as i64],
        which == 3 ==> walsh(t, 0).take(4) == seq![k as i64, (-k) as i64, k as i64, (-k) as i64],
{
    lemma_p2_values();
    let w = walsh(t, 0).take(4);
    assert(t[0] == if which == 0 { 2 * k } else { 0 });
    assert(t[1] == if which == 1 { 2 * k } else { 0 });
    assert(t[2] == if which == 2 { 2 * k } else { 0 });
    assert(t[3] == if which == 3 { 2 * k } else { 0 });
    assert(which == 0 ==> w =~= seq![k as i64, k as i64, k as i64, k as i64]);
    assert(which == 1 ==> w =~= seq![k as i64, k as i64, (-k) as i64, (-k) as i64]);
    assert(which == 2 ==> w =~= seq![k as i64, (-k) as i64, (-k) as i64, k as i64]);
    assert(which == 3 ==> w =~= seq![k as i64, (-k) as i64, k as i64, (-k) as i64]);
}

} // verus!
