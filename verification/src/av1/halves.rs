//! How a DCT is made of halves: the values at even places make the DCT of half the size,
//! those at odd places are added on one side and taken away on the other.
use super::butterfly::{clip, dct, dct_order, lemma_network_zero, lemma_reversed, lemma_step_shape, partial_network, partial_stage, reversed, transformed, Kind, Network, DCT_LEN, DCT_MIN};
use super::sums::{lemma_idle, lemma_pair, lemma_step_keeps_to_itself};
use crate::math::{lemma_p2_mono, lemma_p2_pos, lemma_p2_values, p2};
use vstd::prelude::*;

verus! {

/// The stage that joins the two halves of a DCT of `2^n` values.
pub open spec fn joining(n: int) -> int {
    if n <= 2 {
        15
    } else if n == 3 {
        20
    } else if n == 4 {
        24
    } else if n == 5 {
        27
    } else {
        29
    }
}

/// Where the steps of a stage work.
proof fn lemma_step_range(stage: int, k: int)
    requires
        0 <= stage < 30,
        0 <= k < DCT_LEN@[stage],
    ensures
        ({
            let s = dct(stage, k);
            let n = DCT_MIN@[stage] as int;
            &&& stage == joining(n) ==> s.a == k && s.b == p2(n) - 1 - k && !s.rotation && !s.flip && DCT_LEN@[stage] == p2(n - 1)
            &&& stage != joining(n) && n > 2 ==> p2(n - 1) <= s.a < p2(n) && p2(n - 1) <= s.b < p2(n)
            &&& stage != joining(n) && n == 2 ==> s.a < 4 && s.b < 4
        }),
{
    lemma_p2_values();
}

/// Whether a stage keeps to a range or stays out of it.
spec fn apart(stage: int, from: int, to: int) -> bool {
    forall|k: int|
        0 <= k < DCT_LEN@[stage] ==> {
            let s = #[trigger] dct(stage, k);
            (from <= s.a < to) == (from <= s.b < to)
        }
}

/// Values that agree on a range agree on it after a stage that keeps to it or stays out.
proof fn lemma_stage_agrees(t: Seq<i64>, u: Seq<i64>, stage: int, k: int, r: int, from: int, to: int)
    requires
        t.len() == 64,
        u.len() == 64,
        0 <= stage < 30,
        0 <= k <= DCT_LEN@[stage],
        0 <= from <= to <= 64,
        apart(stage, from, to),
        forall|p: int| from <= p < to ==> #[trigger] t[p] == u[p],
    ensures
        partial_stage(t, Network::Dct, stage, k, r).len() == 64,
        partial_stage(u, Network::Dct, stage, k, r).len() == 64,
        forall|p: int|
            from <= p < to ==> #[trigger] partial_stage(t, Network::Dct, stage, k, r)[p] == partial_stage(
                u,
                Network::Dct,
                stage,
                k,
                r,
            )[p],
    decreases k,
{
    if k > 0 {
        lemma_stage_agrees(t, u, stage, k - 1, r, from, to);
        lemma_step_shape(Network::Dct, stage, k - 1);
        let s = dct(stage, k - 1);
        assert((from <= s.a < to) == (from <= s.b < to));
        let (x, y) = (partial_stage(t, Network::Dct, stage, k - 1, r), partial_stage(u, Network::Dct, stage, k - 1, r));
        lemma_step_keeps_to_itself(x, y, s, 0, r);
        lemma_step_keeps_to_itself(y, x, s, 0, r);
        assert forall|p: int| from <= p < to implies #[trigger] partial_stage(t, Network::Dct, stage, k, r)[p] == partial_stage(
            u,
            Network::Dct,
            stage,
            k,
            r,
        )[p] by {
            assert(x[p] == y[p]);
            lemma_step_keeps_to_itself(x, y, s, p, r);
            lemma_step_keeps_to_itself(y, x, s, p, r);
        }
    }
}

/// A stage that stays out of a range leaves it.
proof fn lemma_stage_leaves(t: Seq<i64>, stage: int, k: int, r: int, from: int, to: int)
    requires
        t.len() == 64,
        0 <= stage < 30,
        0 <= k <= DCT_LEN@[stage],
        0 <= from <= to <= 64,
        forall|j: int|
            0 <= j < DCT_LEN@[stage] ==> {
                let s = #[trigger] dct(stage, j);
                !(from <= s.a < to) && !(from <= s.b < to)
            },
    ensures
        partial_stage(t, Network::Dct, stage, k, r).len() == 64,
        forall|p: int| from <= p < to ==> #[trigger] partial_stage(t, Network::Dct, stage, k, r)[p] == t[p],
    decreases k,
{
    if k > 0 {
        lemma_stage_leaves(t, stage, k - 1, r, from, to);
        lemma_step_shape(Network::Dct, stage, k - 1);
        let s = dct(stage, k - 1);
        assert(!(from <= s.a < to) && !(from <= s.b < to));
        let x = partial_stage(t, Network::Dct, stage, k - 1, r);
        lemma_step_keeps_to_itself(x, x, s, 0, r);
        assert forall|p: int| from <= p < to implies #[trigger] partial_stage(t, Network::Dct, stage, k, r)[p] == t[p] by {
            assert(x[p] == t[p]);
            lemma_step_keeps_to_itself(x, x, s, p, r);
        }
    }
}

/// Which stages come before the halves are joined.
proof fn lemma_stages_before(n: int, stage: int)
    requires
        3 <= n <= 6,
        0 <= stage < 30,
    ensures
        stage < joining(n) && DCT_MIN@[stage] == n ==> stage != joining(DCT_MIN@[stage] as int),
        stage >= joining(n) ==> DCT_MIN@[stage] >= n,
        stage > joining(n) ==> DCT_MIN@[stage] > n,
        DCT_MIN@[joining(n)] == n,
        DCT_MIN@[stage] < n ==> p2(DCT_MIN@[stage] as int) <= p2(n - 1),
        2 <= DCT_MIN@[stage] <= 6,
{
    lemma_p2_values();
    if DCT_MIN@[stage] < n {
        lemma_p2_mono(DCT_MIN@[stage] as int, n - 1);
    }
}

/// Until they are joined, the lower half goes as the DCT of half the size does.
proof fn lemma_lower_half(q: Seq<i64>, e: Seq<i64>, n: int, stages: int, r: int)
    requires
        q.len() == 64,
        e.len() == 64,
        3 <= n <= 6,
        0 <= stages <= joining(n),
        forall|p: int| 0 <= p < p2(n - 1) ==> #[trigger] q[p] == e[p],
    ensures
        ({
            let (x, y) = (partial_network(q, Network::Dct, n, stages, r), partial_network(e, Network::Dct, n - 1, stages, r));
            x.len() == 64 && y.len() == 64 && forall|p: int| 0 <= p < p2(n - 1) ==> #[trigger] x[p] == y[p]
        }),
    decreases stages,
{
    if stages > 0 {
        let stage = stages - 1;
        lemma_lower_half(q, e, n, stage, r);
        lemma_stages_before(n, stage);
        lemma_p2_values();
        let (x, y) = (partial_network(q, Network::Dct, n, stage, r), partial_network(e, Network::Dct, n - 1, stage, r));
        if DCT_MIN@[stage] < n {
            assert forall|k: int| 0 <= k < DCT_LEN@[stage] implies {
                let s = #[trigger] dct(stage, k);
                (0 <= s.a < p2(n - 1)) == (0 <= s.b < p2(n - 1))
            } by {
                lemma_step_range(stage, k);
                lemma_step_shape(Network::Dct, stage, k);
            }
            lemma_stage_agrees(x, y, stage, DCT_LEN@[stage] as int, r, 0, p2(n - 1));
        } else if DCT_MIN@[stage] == n {
            assert forall|k: int| 0 <= k < DCT_LEN@[stage] implies {
                let s = #[trigger] dct(stage, k);
                !(0 <= s.a < p2(n - 1)) && !(0 <= s.b < p2(n - 1))
            } by {
                lemma_step_range(stage, k);
            }
            lemma_stage_leaves(x, stage, DCT_LEN@[stage] as int, r, 0, p2(n - 1));
        }
    }
}

/// Until they are joined, the upper half goes by what it started from.
proof fn lemma_upper_half(q: Seq<i64>, u: Seq<i64>, n: int, stages: int, r: int)
    requires
        q.len() == 64,
        u.len() == 64,
        3 <= n <= 6,
        0 <= stages <= joining(n),
        forall|p: int| p2(n - 1) <= p < p2(n) ==> #[trigger] q[p] == u[p],
    ensures
        ({
            let (x, y) = (partial_network(q, Network::Dct, n, stages, r), partial_network(u, Network::Dct, n, stages, r));
            x.len() == 64 && y.len() == 64 && forall|p: int| p2(n - 1) <= p < p2(n) ==> #[trigger] x[p] == y[p]
        }),
    decreases stages,
{
    if stages > 0 {
        let stage = stages - 1;
        lemma_upper_half(q, u, n, stage, r);
        lemma_stages_before(n, stage);
        lemma_p2_values();
        let (x, y) = (partial_network(q, Network::Dct, n, stage, r), partial_network(u, Network::Dct, n, stage, r));
        if DCT_MIN@[stage] <= n {
            assert forall|k: int| 0 <= k < DCT_LEN@[stage] implies {
                let s = #[trigger] dct(stage, k);
                (p2(n - 1) <= s.a < p2(n)) == (p2(n - 1) <= s.b < p2(n))
            } by {
                lemma_step_range(stage, k);
                lemma_step_shape(Network::Dct, stage, k);
            }
            lemma_stage_agrees(x, y, stage, DCT_LEN@[stage] as int, r, p2(n - 1), p2(n));
        }
    }
}

/// The order of the input: the values at even places come first, ordered as for half the
/// size, then those at odd places.
proof fn lemma_reversed_halves(n: int, p: int)
    requires
        n >= 1,
        0 <= p < p2(n),
    ensures
        p < p2(n - 1) ==> reversed(n, p) == 2 * reversed(n - 1, p),
        p >= p2(n - 1) ==> reversed(n, p) == 2 * reversed(n - 1, p - p2(n - 1)) + 1,
    decreases n,
{
    lemma_p2_pos(n - 1);
    assert(p2(n) == 2 * p2(n - 1));
    if n == 1 {
        assert(p2(0) == 1 && p2(1) == 2) by {
            lemma_p2_values();
        }
        reveal_with_fuel(reversed, 2);
    } else {
        assert(p2(n - 1) == 2 * p2(n - 2));
        lemma_p2_pos(n - 2);
        lemma_reversed_halves(n - 1, p / 2);
        let half = p2(n - 2);
        assert((p % 2) * (2 * half) == 2 * ((p % 2) * half)) by (nonlinear_arith);
        if p >= p2(n - 1) {
            assert((p - p2(n - 1)) % 2 == p % 2 && (p - p2(n - 1)) / 2 == p / 2 - half);
        }
    }
}

/// What the values at odd places give for place `k`.
pub open spec fn odd_part(t: Seq<i64>, n: int, r: int, k: int) -> int {
    partial_network(dct_order(t, n), Network::Dct, n, joining(n), r)[p2(n) - 1 - k] as int
}

/// A DCT is made of halves: at the places of its first half stands what the values at even
/// places give in the DCT of half the size, and the odd ones' part is added to it; at the
/// mirrored places the same part is taken away.
pub proof fn lemma_dct_halves(t: Seq<i64>, e: Seq<i64>, n: int, r: int, k: int)
    requires
        t.len() == 64,
        e.len() == 64,
        3 <= n <= 6,
        1 <= r <= 32,
        forall|j: int| 0 <= j < p2(n - 1) ==> #[trigger] e[j] == t[2 * j],
        0 <= k < p2(n - 1),
    ensures
        ({
            let (u, v) = (transformed(t, Kind::Dct, n, r), transformed(e, Kind::Dct, n - 1, r));
            &&& u[k] == clip(v[k] + odd_part(t, n, r, k), r)
            &&& u[p2(n) - 1 - k] == clip(v[k] - odd_part(t, n, r, k), r)
        }),
{
    reveal(transformed);
    lemma_p2_values();
    let (q, f) = (dct_order(t, n), dct_order(e, n - 1));
    assert forall|p: int| 0 <= p < p2(n - 1) implies #[trigger] q[p] == f[p] by {
        lemma_reversed_halves(n, p);
        lemma_reversed(n - 1, p);
    }
    let last = joining(n);
    lemma_lower_half(q, f, n, last, r);
    lemma_stages_before(n, last);
    let before = partial_network(q, Network::Dct, n, last, r);
    lemma_step_range(last, k);
    lemma_pair(before, Network::Dct, last, DCT_LEN@[last] as int, k, r);
    assert forall|s: int| last <= s < 30 implies #[trigger] DCT_MIN@[s] > n - 1 by {
        lemma_stages_before(n, s);
    }
    assert forall|s: int| last + 1 <= s < 30 implies #[trigger] DCT_MIN@[s] > n by {
        lemma_stages_before(n, s);
    }
    lemma_idle(f, n - 1, last, 30, r);
    lemma_idle(q, n, last + 1, 30, r);
    lemma_p2_mono(r - 1, 31);
    lemma_p2_pos(r - 1);
}

/// The odd part is the odd values' own: it is the same for two inputs that agree on them.
pub proof fn lemma_odd_part_is_of_the_odd(t: Seq<i64>, u: Seq<i64>, n: int, r: int, k: int)
    requires
        t.len() == 64,
        u.len() == 64,
        3 <= n <= 6,
        1 <= r,
        forall|j: int| 0 <= j < p2(n - 1) ==> #[trigger] t[2 * j + 1] == u[2 * j + 1],
        0 <= k < p2(n - 1),
    ensures
        odd_part(t, n, r, k) == odd_part(u, n, r, k),
{
    lemma_p2_values();
    let (q, f) = (dct_order(t, n), dct_order(u, n));
    assert forall|p: int| p2(n - 1) <= p < p2(n) implies #[trigger] q[p] == f[p] by {
        lemma_reversed_halves(n, p);
        lemma_reversed(n - 1, p - p2(n - 1));
        let j = reversed(n - 1, p - p2(n - 1));
        assert(t[2 * j + 1] == u[2 * j + 1]);
    }
    lemma_upper_half(q, f, n, joining(n), r);
}

/// Values at even places alone make the DCT of half the size, and its mirror image behind it.
pub proof fn lemma_even_waves_mirror(t: Seq<i64>, e: Seq<i64>, n: int, r: int, k: int)
    requires
        t.len() == 64,
        e.len() == 64,
        3 <= n <= 6,
        1 <= r <= 32,
        forall|j: int| 0 <= j < p2(n - 1) ==> #[trigger] e[j] == t[2 * j],
        forall|j: int| 0 <= j < p2(n - 1) ==> #[trigger] t[2 * j + 1] == 0,
        0 <= k < p2(n - 1),
    ensures
        ({
            let (u, v) = (transformed(t, Kind::Dct, n, r), transformed(e, Kind::Dct, n - 1, r));
            u[k] == clip(v[k] as int, r) && u[p2(n) - 1 - k] == clip(v[k] as int, r)
        }),
{
    lemma_p2_values();
    let blank = Seq::new(64, |i: int| 0i64);
    lemma_dct_halves(t, e, n, r, k);
    lemma_odd_part_is_of_the_odd(t, blank, n, r, k);
    let q = dct_order(blank, n);
    assert forall|i: int| 0 <= i < 64 implies #[trigger] q[i] == 0 by {
        if i < p2(n) {
            lemma_reversed(n, i);
        }
    }
    lemma_network_zero(q, Network::Dct, n, joining(n), r);
}

/// The upper half waits while the stages of other sizes run.
pub proof fn lemma_upper_waits(q: Seq<i64>, n: int, from: int, to: int, r: int)
    requires
        3 <= n <= 6,
        0 <= from <= to <= joining(n),
        partial_network(q, Network::Dct, n, from, r).len() == 64,
        forall|s: int| from <= s < to ==> #[trigger] DCT_MIN@[s] != n,
    ensures
        ({
            let (x, y) = (partial_network(q, Network::Dct, n, from, r), partial_network(q, Network::Dct, n, to, r));
            y.len() == 64 && forall|p: int| p2(n - 1) <= p < p2(n) ==> #[trigger] y[p] == x[p]
        }),
    decreases to,
{
    if to > from {
        let stage = to - 1;
        lemma_upper_waits(q, n, from, stage, r);
        lemma_stages_before(n, stage);
        assert(DCT_MIN@[stage] != n);
        lemma_p2_values();
        let x = partial_network(q, Network::Dct, n, stage, r);
        if DCT_MIN@[stage] < n {
            assert forall|k: int| 0 <= k < DCT_LEN@[stage] implies {
                let s = #[trigger] dct(stage, k);
                !(p2(n - 1) <= s.a < p2(n)) && !(p2(n - 1) <= s.b < p2(n))
            } by {
                lemma_step_range(stage, k);
            }
            lemma_stage_leaves(x, stage, DCT_LEN@[stage] as int, r, p2(n - 1), p2(n));
        }
    }
}

} // verus!
