//! What holds of the modes and the palettes that are read for a block.
use super::block::{angle_delta, cfl_factor, cfl_factors, mode_context, size_index};
use super::coeff::{next, Coded};
use super::colours::{by_difference, by_wrapping, ceil_log2, colour_index, diagonals, narrower, with_colour, Colouring};
use super::bits::{lemma_log2, log2};
use super::modes::{flows, lemma_flows, number, ROW_CFL_ALPHA, ROW_CFL_SIGN};
use super::palette::{first_greatest, lemma_first_greatest, moved_down, ranked, ranking, score_context, scores};
use super::symbol::lemma_literal;
use super::tx_size::BLOCK_SHAPES;
use crate::math::{clamp, lemma_p2_mono, lemma_p2_pos, lemma_p2_values, min, p2};
use vstd::prelude::*;

verus! {

/// The index of a block's size is where its shape stands among the shapes.
pub proof fn lemma_size_index_of_a_shape(i: int)
    requires
        0 <= i < 22,
    ensures
        size_index(BLOCK_SHAPES@[i].0 as int, BLOCK_SHAPES@[i].1 as int) == i,
{
}

/// A blended mode counts as the mode it blends along, and one that blends both ways, as well
/// as the one by the nearest neighbour, as the average.
pub proof fn lemma_blends_count_as_their_mode()
    ensures
        mode_context(10) == mode_context(1),
        mode_context(11) == mode_context(2),
        mode_context(9) == mode_context(0),
        mode_context(12) == mode_context(0),
        mode_context(8) == mode_context(3),
        mode_context(0) != mode_context(1),
        mode_context(1) != mode_context(2),
        mode_context(0) != mode_context(2),
{
}

/// One symbol says the signs of the two factors of a prediction from luma: none, negative and
/// positive of the first, and of the second within, but never none of both. A factor that
/// has a sign is at least one and at most sixteen.
pub proof fn lemma_factors_have_their_signs(st: Coded)
    requires
        flows(st),
    ensures
        ({
            let symbol = next(st, false, ROW_CFL_SIGN as int).0;
            let (u, v) = cfl_factors(st).0;
            &&& 0 <= symbol < 8
            &&& -16 <= u <= 16
            &&& -16 <= v <= 16
            &&& symbol < 2 <==> u == 0
            &&& 2 <= symbol < 5 <==> u < 0
            &&& 5 <= symbol <==> u > 0
            &&& symbol == 2 || symbol == 5 <==> v == 0
            &&& symbol == 0 || symbol == 3 || symbol == 6 <==> v < 0
            &&& symbol == 1 || symbol == 4 || symbol == 7 <==> v > 0
        }),
{
    lemma_flows(st, ROW_CFL_SIGN as int);
    let t = next(st, false, ROW_CFL_SIGN as int);
    assert(st.rows[ROW_CFL_SIGN as int].len() == 9);
    let (a, b) = ((t.0 + 1) / 3, (t.0 + 1) % 3);
    lemma_factor(t.1, a, b);
    lemma_factor(cfl_factor(t.1, a, b).1, b, a);
}

/// A factor has its sign, and is from one to sixteen.
proof fn lemma_factor(st: Coded, sign: int, other: int)
    requires
        flows(st),
        0 <= sign <= 2,
        0 <= other <= 2,
    ensures
        sign == 0 ==> cfl_factor(st, sign, other) == (0int, st),
        sign == 1 ==> -16 <= cfl_factor(st, sign, other).0 <= -1,
        sign == 2 ==> 1 <= cfl_factor(st, sign, other).0 <= 16,
        flows(cfl_factor(st, sign, other).1),
{
    if sign != 0 {
        let k = ROW_CFL_ALPHA + (sign - 1) * 3 + other;
        lemma_flows(st, k);
        assert(st.rows[k].len() == 17);
    }
}

/// Only a directional mode on a block of at least eight by eight samples has an angle delta;
/// for any other nothing is read.
pub proof fn lemma_deltas_are_for_angles(st: Coded, mode: int, bw4: int, bh4: int)
    ensures
        mode == 0 || mode > 8 || bw4 < 2 || bh4 < 2 ==> angle_delta(st, mode, bw4, bh4) == (0int, st),
{
}

/// A colour's score counts its neighbours: two for the one to the left and the one above, one
/// for the one between them.
pub proof fn lemma_scores_count_neighbours(left: Option<u8>, above_left: Option<u8>, above: Option<u8>, v: int)
    requires
        0 <= v < 8,
    ensures
        scores(left, above_left, above).len() == 8,
        scores(left, above_left, above)[v] == (if left == Some(v as u8) {
            2int
        } else {
            0
        }) + (if above_left == Some(v as u8) {
            1int
        } else {
            0
        }) + (if above == Some(v as u8) {
            2int
        } else {
            0
        }),
{
}

/// Whether a colour stands among the first `n`.
spec fn stands(o: Seq<u8>, n: int, v: int) -> bool {
    exists|k: int| 0 <= k < n && #[trigger] o[k] == v
}

/// Whether a rearranged list has the values of another, and its first ones are the greatest.
spec fn rearranged(s: Seq<int>, t: Seq<int>, o: Seq<u8>, n: int, rounds: int) -> bool {
    &&& t.len() == 8
    &&& o.len() == 8
    &&& forall|k: int| 0 <= k < 8 ==> 0 <= #[trigger] o[k] < 8
    &&& forall|k: int| 0 <= k < 8 ==> #[trigger] t[k] == s[o[k] as int]
    &&& forall|i: int, j: int| 0 <= i < j < 8 ==> o[i] != o[j]
    &&& forall|v: int| 0 <= v < n ==> #[trigger] stands(o, n, v)
    &&& forall|i: int, k: int| 0 <= i < rounds && i <= k < n ==> #[trigger] t[i] >= #[trigger] t[k]
}

/// Ranking rearranges the colours, the best first.
proof fn lemma_ranked(s: Seq<int>, n: int, rounds: int)
    requires
        s.len() == 8,
        1 <= n <= 8,
        0 <= rounds <= n,
    ensures
        ({
            let (t, o) = ranked(s, Seq::new(8, |i: int| i as u8), n, rounds);
            rearranged(s, t, o, n, rounds)
        }),
    decreases rounds,
{
    let start = Seq::new(8, |i: int| i as u8);
    if rounds == 0 {
        assert forall|v: int| 0 <= v < n implies #[trigger] stands(start, n, v) by {
            assert(start[v] == v);
        }
    } else {
        lemma_ranked(s, n, rounds - 1);
        let (t, o) = ranked(s, start, n, rounds - 1);
        let i = rounds - 1;
        lemma_first_greatest(t, i, n);
        let m = first_greatest(t, i, n);
        let (u, p) = (moved_down(t, m, i), moved_down(o, m, i));
        assert forall|v: int| 0 <= v < n implies #[trigger] stands(p, n, v) by {
            assert(stands(o, n, v));
            let k = choose|k: int| 0 <= k < n && #[trigger] o[k] == v;
            if k == m {
                assert(p[i] == v);
            } else if i <= k < m {
                assert(p[k + 1] == v);
            } else {
                assert(p[k] == v);
            }
        }
        assert forall|a: int, b: int| 0 <= a < b < 8 implies p[a] != p[b] by {}
        assert forall|a: int, k: int| 0 <= a < rounds && a <= k < n implies #[trigger] u[a] >= #[trigger] u[k] by {
            if a < i {
                assert(u[a] == t[a]);
                let from = if k == i {
                    m
                } else if i < k <= m {
                    k - 1
                } else {
                    k
                };
                assert(u[k] == t[from]);
                assert(t[a] >= t[from]);
            } else {
                assert(u[a] == t[m]);
                let from = if k == i {
                    m
                } else if i < k <= m {
                    k - 1
                } else {
                    k
                };
                assert(u[k] == t[from]);
            }
        }
        assert(rearranged(s, u, p, n, rounds));
    }
}

/// The context of a colour index says how the neighbours agree: most where all three are one
/// colour, then where the left and the upper one are, then where one of them is that between
/// them; least where all differ. Without the one between them there is one neighbour alone,
/// and the context is zero. The first colour of the ranking is one that a neighbour has most.
pub proof fn lemma_ranking_says_who_agrees(left: u8, above_left: u8, above: u8, n: int)
    requires
        2 <= n <= 8,
        left < n,
        above_left < n,
        above < n,
    ensures
        ({
            let (t, o) = ranking(Some(left), Some(above_left), Some(above), n);
            let k = score_context(t);
            &&& left == above && above == above_left ==> k == 4 && o[0] == left
            &&& left == above && above != above_left ==> k == 3 && o[0] == left && o[1] == above_left
            &&& left != above && left == above_left ==> k == 2 && o[0] == left && o[1] == above
            &&& left != above && above == above_left ==> k == 2 && o[0] == above && o[1] == left
            &&& left != above && left != above_left && above != above_left ==> k == 1 && o[2] == above_left
        }),
        score_context(ranking(Some(left), None, None, n).0) == 0,
        score_context(ranking(None, None, Some(above), n).0) == 0,
        ranking(Some(left), None, None, n).1[0] == left,
        ranking(None, None, Some(above), n).1[0] == above,
{
    let s = scores(Some(left), Some(above_left), Some(above));
    let rounds = min(n, 3);
    lemma_ranked(s, n, rounds);
    let (t, o) = ranking(Some(left), Some(above_left), Some(above), n);
    let (a, b, c) = (left as int, above_left as int, above as int);
    assert(rearranged(s, t, o, n, rounds));
    assert(stands(o, n, a) && stands(o, n, b) && stands(o, n, c));
    let ka = choose|k: int| 0 <= k < n && #[trigger] o[k] == a;
    let kb = choose|k: int| 0 <= k < n && #[trigger] o[k] == b;
    let kc = choose|k: int| 0 <= k < n && #[trigger] o[k] == c;
    assert(t[0] == s[o[0] as int] && t[1] == s[o[1] as int] && t[2] == s[o[2] as int]);
    assert(t[ka] == s[a] && t[kb] == s[b] && t[kc] == s[c]);
    assert(o[0] != o[1] && o[0] != o[2] && o[1] != o[2]);
    assert(t[0] >= t[ka] && t[0] >= t[kb] && t[0] >= t[kc]);
    assert(ka >= 1 ==> t[1] >= t[ka]);
    assert(kb >= 1 ==> t[1] >= t[kb]);
    assert(kc >= 1 ==> t[1] >= t[kc]);
    assert(n >= 3 && ka >= 2 ==> t[2] >= t[ka]);
    assert(n >= 3 && kb >= 2 ==> t[2] >= t[kb]);
    assert(n >= 3 && kc >= 2 ==> t[2] >= t[kc]);
    lemma_one_neighbour(left, n, true);
    lemma_one_neighbour(above, n, false);
}

/// A single neighbour's colour ranks first.
proof fn lemma_one_neighbour(v: u8, n: int, beside: bool)
    requires
        2 <= n <= 8,
        v < n,
    ensures
        ({
            let (t, o) = if beside {
                ranking(Some(v), None, None, n)
            } else {
                ranking(None, None, Some(v), n)
            };
            score_context(t) == 0 && o[0] == v
        }),
{
    let s = if beside {
        scores(Some(v), None, None)
    } else {
        scores(None, None, Some(v))
    };
    let rounds = min(n, 3);
    lemma_ranked(s, n, rounds);
    let (t, o) = ranked(s, Seq::new(8, |i: int| i as u8), n, rounds);
    assert(rearranged(s, t, o, n, rounds));
    assert(stands(o, n, v as int));
    let k = choose|k: int| 0 <= k < n && #[trigger] o[k] == v as int;
    assert(t[k] == s[v as int]);
    assert(t[0] >= t[k]);
    assert(t[0] == s[o[0] as int] && t[1] == s[o[1] as int] && t[2] == s[o[2] as int]);
    assert(o[0] != o[1] && o[0] != o[2] && o[1] != o[2]);
}

/// A colour that is coded by its difference is that much above the one before it, and one
/// more in luma, up to the greatest there is.
pub proof fn lemma_differences_rise(k: Colouring, size: int, depth: int, bits: int, least: int)
    requires
        k.st.sym.wf(),
        1 <= k.count < size <= 8,
        k.colours.len() == 8,
        0 <= least <= 1,
        1 <= depth <= 16,
        k.colours[k.count - 1] < p2(depth),
    ensures
        ({
            let t = number(k.st, bits);
            let was = k.colours[k.count - 1] as int;
            let now = clamp(was + t.0 + least, 0, p2(depth) - 1);
            &&& was <= now < p2(depth)
            &&& was + t.0 + least < p2(depth) ==> now == was + t.0 + least
            &&& by_difference(k, size, depth, bits, least) == by_difference(
                with_colour(k, t.1, now),
                size,
                depth,
                narrower(bits, depth, now, least),
                least,
            )
            &&& with_colour(k, t.1, now).colours[k.count] == now
            &&& with_colour(k, t.1, now).colours[k.count - 1] == was
        }),
{
    lemma_literal(k.st.sym, bits);
    lemma_p2_values();
    lemma_p2_mono(depth, 16);
}

/// The next difference has as many bits as the colours that are left need, and no more.
pub proof fn lemma_differences_fit(bits: int, depth: int, colour: int, least: int)
    requires
        0 <= bits,
        0 <= least <= 1,
        0 <= colour < p2(depth),
    ensures
        ({
            let w = narrower(bits, depth, colour, least);
            let room = p2(depth) - colour - least;
            &&& 0 <= w <= bits
            &&& w < bits ==> room <= p2(w)
            &&& w > 0 ==> room > p2(w - 1)
        }),
{
    let room = p2(depth) - colour - least;
    lemma_p2_values();
    if room >= 2 {
        lemma_log2(room - 1);
        let w = narrower(bits, depth, colour, least);
        if w > 0 && w < ceil_log2(room) {
            lemma_p2_mono(w - 1, log2(room - 1));
        }
    }
}

/// A second chroma colour that is coded by its difference goes around: it is the one before
/// moved by the difference, up to a whole turn through the colours there are.
pub proof fn lemma_differences_go_around(k: Colouring, size: int, depth: int, bits: int)
    requires
        k.st.sym.wf(),
        1 <= k.count < size <= 8,
        k.colours.len() == 8,
        1 <= depth <= 16,
        0 <= bits <= depth,
        k.colours[k.count - 1] < p2(depth),
    ensures
        ({
            let t = number(k.st, bits);
            let u = number(t.1, 1);
            let was = k.colours[k.count - 1] as int;
            let (moved, st) = if t.0 == 0 {
                (was, t.1)
            } else if u.0 != 0 {
                (was - t.0, u.1)
            } else {
                (was + t.0, u.1)
            };
            let now = moved % p2(depth);
            &&& 0 <= now < p2(depth)
            &&& by_wrapping(k, size, depth, bits) == by_wrapping(with_colour(k, st, now), size, depth, bits)
        }),
{
    lemma_literal(k.st.sym, bits);
    lemma_p2_mono(bits, depth);
    let t = number(k.st, bits);
    let u = number(t.1, 1);
    let was = k.colours[k.count - 1] as int;
    let (moved, st) = if t.0 == 0 {
        (was, t.1)
    } else if u.0 != 0 {
        (was - t.0, u.1)
    } else {
        (was + t.0, u.1)
    };
    let now = if moved < 0 {
        moved + p2(depth)
    } else if moved >= p2(depth) {
        moved - p2(depth)
    } else {
        moved
    };
    let turn = p2(depth);
    lemma_p2_pos(depth);
    assert(now == moved % turn) by (nonlinear_arith)
        requires
            0 <= now < turn,
            now == moved || now == moved + turn || now == moved - turn,
    ;
    assert(by_wrapping(k, size, depth, bits) == by_wrapping(with_colour(k, st, now), size, depth, bits));
}

/// A map is filled diagonal by diagonal: what is on an earlier diagonal stays, so that the
/// neighbours that rank a colour are those of the finished map.
pub proof fn lemma_diagonals_stay(
    st: Coded,
    map: Seq<u8>,
    size: int,
    bw: int,
    bh: int,
    base: int,
    i: int,
    column: int,
    r: int,
    c: int,
)
    requires
        map.len() == bw * bh,
        0 <= r < bh,
        0 <= c < bw,
        r + c < i || (r + c == i && c > column),
        column < bw,
        column <= i,
    ensures
        diagonals(st, map, size, bw, bh, base, i, column).0.len() == bw * bh,
        diagonals(st, map, size, bw, bh, base, i, column).0[r * bw + c] == map[r * bw + c],
    decreases bw + bh - 1 - i, column + 1,
{
    if i >= bw + bh - 1 {
    } else if column < 0 || column < i - (bh - 1) {
        lemma_diagonals_stay(st, map, size, bw, bh, base, i + 1, min(i + 1, bw - 1), r, c);
    } else {
        let row = i - column;
        let t = colour_index(st, map, size, bw, base, row, column);
        super::units::lemma_grid(bw, bh, row, column);
        super::units::lemma_grid(bw, bh, r, c);
        lemma_diagonals_stay(t.1, map.update(row * bw + column, t.0), size, bw, bh, base, i, column - 1, r, c);
    }
}

} // verus!
