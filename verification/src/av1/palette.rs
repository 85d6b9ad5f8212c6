//! Palette prediction.
//!
//! A palette block codes up to eight colours and, for each sample, an index into
//! them. Two parts of that are pure: merging the neighbouring palettes into the
//! cache that predicts the colours, and the model that orders the colour indices
//! by what the neighbouring samples hold.
use crate::math::min;
use vstd::prelude::*;

verus! {

/// The most colours a palette has.
pub const PALETTE_COLORS: usize = 8;

/// The context of each hash of the neighbours' scores; a negative one means none.
pub const PALETTE_COLOR_CONTEXT: [i8; 9] = [-1, -1, 0, -1, -1, 4, 3, 2, 1];

/// A colour added to a cache, unless it is the last already.
pub open spec fn absorbed(cache: Seq<u16>, v: u16) -> Seq<u16> {
    if cache.len() > 0 && cache.last() == v {
        cache
    } else {
        cache.push(v)
    }
}

/// The cache after merging the rest of both palettes into it, the smaller first
/// colour before the other.
pub open spec fn merged(cache: Seq<u16>, above: Seq<u16>, left: Seq<u16>) -> Seq<u16>
    decreases above.len() + left.len(),
{
    if above.len() == 0 && left.len() == 0 {
        cache
    } else if left.len() == 0 {
        merged(absorbed(cache, above[0]), above.skip(1), left)
    } else if above.len() == 0 {
        merged(absorbed(cache, left[0]), above, left.skip(1))
    } else if left[0] < above[0] {
        merged(absorbed(cache, left[0]), above, left.skip(1))
    } else if left[0] == above[0] {
        merged(absorbed(cache, above[0]), above.skip(1), left.skip(1))
    } else {
        merged(absorbed(cache, above[0]), above.skip(1), left)
    }
}

/// No colour is less than the one before it.
pub open spec fn ascending(s: Seq<u16>) -> bool {
    forall|i: int, j: int| 0 <= i < j < s.len() ==> s[i] <= s[j]
}

/// Every colour is greater than the one before it.
pub open spec fn rising(s: Seq<u16>) -> bool {
    forall|i: int, j: int| 0 <= i < j < s.len() ==> s[i] < s[j]
}

/// Merging ascending palettes gives rising colours: exactly those of the two
/// palettes, each once.
pub proof fn lemma_merged(cache: Seq<u16>, above: Seq<u16>, left: Seq<u16>)
    requires
        rising(cache),
        ascending(above),
        ascending(left),
        cache.len() > 0 && above.len() > 0 ==> cache.last() <= above[0],
        cache.len() > 0 && left.len() > 0 ==> cache.last() <= left[0],
    ensures
        rising(merged(cache, above, left)),
        forall|v: u16| #[trigger]
            merged(cache, above, left).contains(v) <==> cache.contains(v) || above.contains(v) || left.contains(v),
    decreases above.len() + left.len(),
{
    if above.len() == 0 && left.len() == 0 {
    } else {
        let from_left = above.len() == 0 || (left.len() > 0 && left[0] < above[0]);
        let both = above.len() > 0 && left.len() > 0 && left[0] == above[0];
        let v = if from_left {
            left[0]
        } else {
            above[0]
        };
        let next = absorbed(cache, v);
        let a = if from_left {
            above
        } else {
            above.skip(1)
        };
        let l = if from_left || both {
            left.skip(1)
        } else {
            left
        };
        assert(merged(cache, above, left) == merged(next, a, l));
        assert(next.last() == v);
        assert forall|i: int, j: int| 0 <= i < j < next.len() implies next[i] < next[j] by {
            if j == cache.len() {
                assert(cache[i] <= cache.last());
            }
        }
        lemma_merged(next, a, l);
        assert forall|u: u16| #[trigger] merged(cache, above, left).contains(u) <==> cache.contains(u)
            || above.contains(u) || left.contains(u) by {
            lemma_absorbed_contains(cache, v, u);
            lemma_skip_contains(above, u);
            lemma_skip_contains(left, u);
        }
    }
}

/// What a cache holds after one more colour.
proof fn lemma_absorbed_contains(cache: Seq<u16>, v: u16, u: u16)
    ensures
        absorbed(cache, v).contains(u) <==> cache.contains(u) || u == v,
{
    let next = absorbed(cache, v);
    if cache.contains(u) {
        let i = choose|i: int| 0 <= i < cache.len() && cache[i] == u;
        assert(next[i] == u);
    }
    assert(next[next.len() - 1] == v);
    if next.contains(u) {
        let i = choose|i: int| 0 <= i < next.len() && next[i] == u;
        if i < cache.len() {
            assert(cache[i] == u);
        }
    }
}

/// What a palette holds besides its first colour.
proof fn lemma_skip_contains(s: Seq<u16>, u: u16)
    ensures
        s.contains(u) <==> (s.len() > 0 && s[0] == u) || (s.len() > 0 && s.skip(1).contains(u)),
{
    if s.len() > 0 {
        let t = s.skip(1);
        if s.contains(u) {
            let i = choose|i: int| 0 <= i < s.len() && s[i] == u;
            if i > 0 {
                assert(t[i - 1] == u);
            }
        }
        if t.contains(u) {
            let i = choose|i: int| 0 <= i < t.len() && t[i] == u;
            assert(s[i + 1] == u);
        }
    }
}

/// Add a colour to a cache, unless it is the last already.
fn absorb(cache: &mut Vec<u16>, v: u16)
    ensures
        final(cache)@ == absorbed(old(cache)@, v),
{
    let n = cache.len();
    if n == 0 || cache[n - 1] != v {
        cache.push(v);
    }
}

/// Merge the palettes above and to the left, both ascending, into the cache that
/// predicts a block's colours.
pub fn palette_cache(above: &[u16], left: &[u16]) -> (r: Vec<u16>)
    ensures
        r@ == merged(Seq::empty(), above@, left@),
        ascending(above@) && ascending(left@) ==> rising(r@) && forall|v: u16| #[trigger]
            r@.contains(v) <==> above@.contains(v) || left@.contains(v),
{
    let mut cache: Vec<u16> = Vec::new();
    let mut ai: usize = 0;
    let mut li: usize = 0;
    assert(above@.skip(0) =~= above@);
    assert(left@.skip(0) =~= left@);
    while ai < above.len() || li < left.len()
        invariant
            ai <= above@.len(),
            li <= left@.len(),
            merged(Seq::empty(), above@, left@) == merged(cache@, above@.skip(ai as int), left@.skip(li as int)),
        decreases above@.len() - ai + left@.len() - li,
    {
        proof {
            if ai < above@.len() {
                assert(above@.skip(ai as int).skip(1) =~= above@.skip(ai + 1));
            }
            if li < left@.len() {
                assert(left@.skip(li as int).skip(1) =~= left@.skip(li + 1));
            }
        }
        if ai < above.len() && (li >= left.len() || left[li] >= above[ai]) {
            absorb(&mut cache, above[ai]);
            if li < left.len() && left[li] == above[ai] {
                li = li + 1;
            }
            ai = ai + 1;
        } else {
            absorb(&mut cache, left[li]);
            li = li + 1;
        }
    }
    proof {
        if ascending(above@) && ascending(left@) {
            lemma_merged(Seq::empty(), above@, left@);
        }
    }
    cache
}

/// The scores after a neighbour that holds `index` adds `weight`.
pub open spec fn scored(scores: Seq<int>, index: Option<u8>, weight: int) -> Seq<int> {
    match index {
        Some(v) => if v < scores.len() {
            scores.update(v as int, scores[v as int] + weight)
        } else {
            scores
        },
        None => scores,
    }
}

/// The scores of the colours, from what the neighbouring samples hold.
pub open spec fn scores(left: Option<u8>, above_left: Option<u8>, above: Option<u8>) -> Seq<int> {
    scored(scored(scored(Seq::new(8, |i: int| 0), left, 2), above_left, 1), above, 2)
}

/// The first place of the greatest value among `from..to`.
pub open spec fn first_greatest(s: Seq<int>, from: int, to: int) -> int
    decreases to - from,
{
    if to - from <= 1 {
        from
    } else {
        let m = first_greatest(s, from, to - 1);
        if s[to - 1] > s[m] {
            to - 1
        } else {
            m
        }
    }
}

/// `s` with the value at `m` moved down to place `i`.
pub open spec fn moved_down<T>(s: Seq<T>, m: int, i: int) -> Seq<T> {
    Seq::new(
        s.len(),
        |k: int|
            if k == i {
                s[m]
            } else if i < k <= m {
                s[k - 1]
            } else {
                s[k]
            },
    )
}

/// The scores and the colours after the first `rounds` places are filled with
/// the best scored of the first `n` colours, earlier colours first among equals.
pub open spec fn ranked(s: Seq<int>, order: Seq<u8>, n: int, rounds: int) -> (Seq<int>, Seq<u8>)
    decreases rounds,
{
    if rounds <= 0 {
        (s, order)
    } else {
        let (t, o) = ranked(s, order, n, rounds - 1);
        let m = first_greatest(t, rounds - 1, n);
        (moved_down(t, m, rounds - 1), moved_down(o, m, rounds - 1))
    }
}

/// The ranking that the neighbouring samples give to `n` colours.
pub open spec fn ranking(left: Option<u8>, above_left: Option<u8>, above: Option<u8>, n: int) -> (Seq<int>, Seq<u8>) {
    ranked(scores(left, above_left, above), Seq::new(8, |i: int| i as u8), min(n, 8), min(n, 3))
}

/// The context that the best scores select.
pub open spec fn score_context(s: Seq<int>) -> int {
    let hash = s[0] + 2 * s[1] + 2 * s[2];
    if hash < 9 && PALETTE_COLOR_CONTEXT@[hash] >= 0 {
        PALETTE_COLOR_CONTEXT@[hash] as int
    } else {
        0
    }
}

/// The first greatest value stands in its range.
pub proof fn lemma_first_greatest(s: Seq<int>, from: int, to: int)
    requires
        from < to,
    ensures
        from <= first_greatest(s, from, to) < to,
        forall|k: int| from <= k < to ==> #[trigger] s[k] <= s[first_greatest(s, from, to)],
    decreases to - from,
{
    if to - from > 1 {
        lemma_first_greatest(s, from, to - 1);
    }
}

/// The colour order that the neighbouring samples give is a rearrangement of the
/// eight colour indices.
pub proof fn lemma_ranking_permutes(s: Seq<int>, order: Seq<u8>, n: int, rounds: int)
    requires
        s.len() == 8,
        order.len() == 8,
        forall|i: int, j: int| 0 <= i < j < 8 ==> order[i] != order[j],
        0 <= rounds <= n <= 8,
    ensures
        ranked(s, order, n, rounds).0.len() == 8,
        ranked(s, order, n, rounds).1.len() == 8,
        forall|i: int, j: int|
            0 <= i < j < 8 ==> ranked(s, order, n, rounds).1[i] != ranked(s, order, n, rounds).1[j],
    decreases rounds,
{
    if rounds > 0 {
        lemma_ranking_permutes(s, order, n, rounds - 1);
        let (t, o) = ranked(s, order, n, rounds - 1);
        lemma_first_greatest(t, rounds - 1, n);
        let m = first_greatest(t, rounds - 1, n);
        let r = moved_down(o, m, rounds - 1);
        assert forall|i: int, j: int| 0 <= i < j < 8 implies r[i] != r[j] by {}
    }
}

/// Add a neighbour's weight to the score of the colour it holds.
fn score(scores: &mut [u32; 8], index: Option<u8>, weight: u32)
    requires
        weight <= 2,
        forall|i: int| 0 <= i < 8 ==> #[trigger] old(scores)@[i] <= 10,
    ensures
        final(scores)@.map_values(|x: u32| x as int) == scored(
            old(scores)@.map_values(|x: u32| x as int),
            index,
            weight as int,
        ),
        forall|i: int| 0 <= i < 8 ==> #[trigger] final(scores)@[i] <= old(scores)@[i] + weight,
{
    let ghost before = scores@.map_values(|x: u32| x as int);
    match index {
        Some(v) => {
            if v < 8 {
                assert(scores@[v as int] <= 10);
                scores[v as usize] = scores[v as usize] + weight;
            }
        },
        None => {},
    }
    assert(scores@.map_values(|x: u32| x as int) =~= scored(before, index, weight as int));
}

/// The order of the colour indices and the context for one sample of a block with
/// `n` colours, from the indices to the left, above left and above.
pub fn color_context(left: Option<u8>, above_left: Option<u8>, above: Option<u8>, n: usize) -> (r: ([u8; 8], usize))
    ensures
        r.0@ == ranking(left, above_left, above, n as int).1,
        r.1 == score_context(ranking(left, above_left, above, n as int).0),
        r.1 <= 4,
        forall|i: int, j: int| 0 <= i < j < 8 ==> r.0@[i] != r.0@[j],
{
    let mut s = [0u32; 8];
    assert(s@.map_values(|x: u32| x as int) =~= Seq::new(8, |i: int| 0int));
    score(&mut s, left, 2);
    score(&mut s, above_left, 1);
    score(&mut s, above, 2);
    let mut order: [u8; 8] = [0, 1, 2, 3, 4, 5, 6, 7];
    let ghost s0 = s@.map_values(|x: u32| x as int);
    let ghost o0 = Seq::new(8, |i: int| i as u8);
    assert(order@ =~= o0);
    let limit: usize = if n < 8 {
        n
    } else {
        8
    };
    let rounds: usize = if n < 3 {
        n
    } else {
        3
    };
    let mut i: usize = 0;
    while i < rounds
        invariant
            i <= rounds <= 3,
            rounds <= limit <= 8,
            s0.len() == 8,
            o0.len() == 8,
            s@.map_values(|x: u32| x as int) == ranked(s0, o0, limit as int, i as int).0,
            order@ == ranked(s0, o0, limit as int, i as int).1,
            forall|k: int| 0 <= k < 8 ==> #[trigger] s@[k] <= 10,
        decreases rounds - i,
    {
        let ghost t = s@.map_values(|x: u32| x as int);
        let ghost o = order@;
        let mut best = i;
        let mut j = i + 1;
        while j < limit
            invariant
                i < j <= limit <= 8,
                i <= best < j,
                t == s@.map_values(|x: u32| x as int),
                best == first_greatest(t, i as int, j as int),
            decreases limit - j,
        {
            if s[j] > s[best] {
                best = j;
            }
            j = j + 1;
        }
        let top_score = s[best];
        let top_color = order[best];
        let mut k = best;
        while k > i
            invariant
                i <= k <= best < 8,
                t.len() == 8,
                o.len() == 8,
                forall|q: int| 0 <= q < 8 ==> #[trigger] s@[q] <= 10,
                forall|q: int| #![trigger s@[q]] 0 <= q < 8 ==> s@[q] as int == if k < q <= best {
                    t[q - 1]
                } else {
                    t[q]
                },
                forall|q: int| #![trigger order@[q]] 0 <= q < 8 ==> order@[q] == if k < q <= best {
                    o[q - 1]
                } else {
                    o[q]
                },
            decreases k - i,
        {
            assert(s@[k - 1] as int == t[k - 1]);
            assert(order@[k - 1] == o[k - 1]);
            s[k] = s[k - 1];
            order[k] = order[k - 1];
            k = k - 1;
        }
        s[i] = top_score;
        order[i] = top_color;
        assert(s@.map_values(|x: u32| x as int) =~= moved_down(t, best as int, i as int));
        assert(order@ =~= moved_down(o, best as int, i as int));
        i = i + 1;
    }
    proof {
        lemma_ranking_permutes(s0, o0, limit as int, rounds as int);
        assert(s@.map_values(|x: u32| x as int)[0] == s@[0] as int);
        assert(s@.map_values(|x: u32| x as int)[1] == s@[1] as int);
        assert(s@.map_values(|x: u32| x as int)[2] == s@[2] as int);
    }
    let hash = (s[0] + 2 * s[1] + 2 * s[2]) as usize;
    let ctx: usize = if hash < 9 && PALETTE_COLOR_CONTEXT[hash] >= 0 {
        PALETTE_COLOR_CONTEXT[hash] as usize
    } else {
        0
    };
    (order, ctx)
}

} // verus!
