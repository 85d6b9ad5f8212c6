//! What holds of a block's coefficients: the order they come in, what the levels
//! before them say of them, and how a block is summed up for its neighbours.
use super::cdf::turn;
use super::coeff::{base_context, coded_block, end_of_block, extended, extension_context, golomb, golomb_length, last_context, lemma_golomb_length, lemma_next, level, levels, next, signed, signs, Coded, COEFF_BASE_CTX_OFFSET_4X4, DEFAULT_SCAN_4X4, ROW_BASE, ROW_BASE_EOB, ROW_BR, ROW_DC_SIGN, ROW_EOB_EXTRA, ROW_EOB_PT};
use super::symbol::{even_cdf, lemma_decode, lemma_literal, literal, Sym};
use crate::math::{lemma_p2_mono, lemma_p2_pos, lemma_p2_values, p2};
use vstd::prelude::*;

verus! {

/// The diagonal of a raster position of a block of four by four.
pub open spec fn diagonal(pos: int) -> int {
    pos / 4 + pos % 4
}

/// The scan goes through a block diagonal by diagonal, each next one the other way: along
/// one, a step goes down to the left on odd diagonals and up to the right on even ones.
pub proof fn lemma_scan_zigzags(c: int)
    requires
        0 <= c < 15,
    ensures
        ({
            let (p, q) = (DEFAULT_SCAN_4X4@[c] as int, DEFAULT_SCAN_4X4@[c + 1] as int);
            &&& 0 <= p < 16
            &&& 0 <= q < 16
            &&& diagonal(p) <= diagonal(q) <= diagonal(p) + 1
            &&& diagonal(p) == diagonal(q) && diagonal(p) % 2 == 1 ==> q == p + 3
            &&& diagonal(p) == diagonal(q) && diagonal(p) % 2 == 0 ==> q == p - 3
        }),
{
}

/// The scan goes through every position once.
pub proof fn lemma_scan_visits_once(a: int, b: int)
    requires
        0 <= a < b < 16,
    ensures
        DEFAULT_SCAN_4X4@[a] != DEFAULT_SCAN_4X4@[b],
        0 <= DEFAULT_SCAN_4X4@[a] < 16,
        0 <= DEFAULT_SCAN_4X4@[b] < 16,
        diagonal(DEFAULT_SCAN_4X4@[a] as int) <= diagonal(DEFAULT_SCAN_4X4@[b] as int),
{
}

/// The contexts of a coefficient depend on the levels of later diagonals alone, which are
/// read before it.
pub proof fn lemma_contexts_look_ahead(p: Seq<i32>, q: Seq<i32>, pos: int)
    requires
        0 <= pos < 16,
        p.len() == 16,
        q.len() == 16,
        forall|k: int| 0 <= k < 16 && diagonal(k) > diagonal(pos) ==> #[trigger] p[k] == q[k],
    ensures
        base_context(p, pos) == base_context(q, pos),
        extension_context(p, pos) == extension_context(q, pos),
{
    let (row, col) = (pos / 4, pos % 4);
    assert forall|r: int, c: int| row <= r < 4 && col <= c < 4 && r + c > row + col implies #[trigger] p[4 * r + c] == q[4
        * r + c] by {
        let k = 4 * r + c;
        assert(k / 4 == r && k % 4 == c);
        assert(p[k] == q[k]);
    }
    if col + 1 < 4 {
        assert(p[4 * row + (col + 1)] == q[4 * row + (col + 1)]);
    }
    if col + 2 < 4 {
        assert(p[4 * row + (col + 2)] == q[4 * row + (col + 2)]);
    }
    if row + 1 < 4 {
        assert(p[4 * (row + 1) + col] == q[4 * (row + 1) + col]);
    }
    if row + 2 < 4 {
        assert(p[4 * (row + 2) + col] == q[4 * (row + 2) + col]);
    }
    if row + 1 < 4 && col + 1 < 4 {
        assert(p[4 * (row + 1) + (col + 1)] == q[4 * (row + 1) + (col + 1)]);
    }
}

/// The contexts do not tell rows from columns: a transposed block has them transposed.
pub proof fn lemma_contexts_transpose(q: Seq<i32>, t: Seq<i32>, row: int, col: int)
    requires
        q.len() == 16,
        t.len() == 16,
        0 <= row < 4,
        0 <= col < 4,
        forall|r: int, c: int| 0 <= r < 4 && 0 <= c < 4 ==> #[trigger] q[4 * r + c] == t[4 * c + r],
    ensures
        base_context(q, 4 * row + col) == base_context(t, 4 * col + row),
        extension_context(q, 4 * row + col) == extension_context(t, 4 * col + row),
{
    let (x, y) = (4 * row + col, 4 * col + row);
    assert(x / 4 == row && x % 4 == col && y / 4 == col && y % 4 == row);
    if col + 1 < 4 {
        assert(q[4 * row + (col + 1)] == t[4 * (col + 1) + row]);
    }
    if col + 2 < 4 {
        assert(q[4 * row + (col + 2)] == t[4 * (col + 2) + row]);
    }
    if row + 1 < 4 {
        assert(q[4 * (row + 1) + col] == t[4 * col + (row + 1)]);
    }
    if row + 2 < 4 {
        assert(q[4 * (row + 2) + col] == t[4 * col + (row + 2)]);
    }
    if row + 1 < 4 && col + 1 < 4 {
        assert(q[4 * (row + 1) + (col + 1)] == t[4 * (col + 1) + (row + 1)]);
    }
    assert(COEFF_BASE_CTX_OFFSET_4X4@[row]@[col] == COEFF_BASE_CTX_OFFSET_4X4@[col]@[row]);
}

/// Greater levels around a coefficient never give it a lower context, and each position's
/// contexts lie in a range of its own: by diagonals for a base level, by the first
/// position, the first quarter and the rest for an extension.
pub proof fn lemma_contexts_grow(p: Seq<i32>, q: Seq<i32>, pos: int)
    requires
        0 <= pos < 16,
        p.len() == 16,
        q.len() == 16,
        forall|k: int| 0 <= k < 16 ==> 0 <= #[trigger] p[k] <= q[k],
    ensures
        base_context(p, pos) <= base_context(q, pos),
        extension_context(p, pos) <= extension_context(q, pos),
        pos == 0 ==> base_context(p, pos) == 0,
        diagonal(pos) == 1 ==> 1 <= base_context(p, pos) <= 5,
        2 <= diagonal(pos) <= 3 ==> 6 <= base_context(p, pos) <= 10,
        diagonal(pos) >= 4 ==> 21 <= base_context(p, pos) <= 25,
        pos == 0 ==> 0 <= extension_context(p, pos) <= 6,
        pos == 1 || pos == 4 || pos == 5 ==> 7 <= extension_context(p, pos) <= 13,
        pos / 4 >= 2 || pos % 4 >= 2 ==> 14 <= extension_context(p, pos) <= 20,
{
    let (row, col) = (pos / 4, pos % 4);
    assert(0 <= row < 4 && 0 <= col < 4 && pos == 4 * row + col);
    if col + 1 < 4 {
        assert(0 <= p[4 * row + (col + 1)] <= q[4 * row + (col + 1)]);
    }
    if col + 2 < 4 {
        assert(0 <= p[4 * row + (col + 2)] <= q[4 * row + (col + 2)]);
    }
    if row + 1 < 4 {
        assert(0 <= p[4 * (row + 1) + col] <= q[4 * (row + 1) + col]);
    }
    if row + 2 < 4 {
        assert(0 <= p[4 * (row + 2) + col] <= q[4 * (row + 2) + col]);
    }
    if row + 1 < 4 && col + 1 < 4 {
        assert(0 <= p[4 * (row + 1) + (col + 1)] <= q[4 * (row + 1) + (col + 1)]);
    }
}

/// The end of a block is one for class zero; a further class holds the positions above one
/// power of two and up to the next, counted by the bits that follow, the coded one first.
pub proof fn lemma_end_of_block(st: Coded, frozen: bool, pt: int)
    requires
        st.wf(),
        0 <= pt <= 1,
    ensures
        ({
            let (class, a) = next(st, frozen, ROW_EOB_PT + 2 * pt);
            let eob = end_of_block(st, frozen, pt).0;
            let (x, b) = next(a, frozen, ROW_EOB_EXTRA + 9 * pt + class - 2);
            &&& 1 <= eob <= 16
            &&& class == 0 ==> eob == 1
            &&& class > 0 ==> p2(class - 1) < eob <= p2(class)
            &&& class > 1 ==> eob - 1 - p2(class - 1) == x * p2(class - 2) + literal(b.sym, class - 2).0
        }),
{
    lemma_next(st, frozen, ROW_EOB_PT + 2 * pt);
    let (class, a) = next(st, frozen, ROW_EOB_PT + 2 * pt);
    lemma_p2_values();
    if class > 1 {
        lemma_next(a, frozen, ROW_EOB_EXTRA + 9 * pt + class - 2);
        let (x, b) = next(a, frozen, ROW_EOB_EXTRA + 9 * pt + class - 2);
        lemma_literal(b.sym, class - 2);
        assert(x == 0 || x == 1);
        assert(0 * p2(class - 2) == 0 && 1 * p2(class - 2) == p2(class - 2));
        assert(p2(class - 1) == 2 * p2(class - 2));
        assert(p2(class) == 2 * p2(class - 1));
    }
}

/// A Golomb code is a number with as many bits behind its first as there were zeros, of
/// which there are at most twenty.
pub proof fn lemma_golomb_bits(s: Sym)
    requires
        s.wf(),
    ensures
        ({
            let (length, t) = golomb_length(s, 0);
            &&& 1 <= length <= 21
            &&& p2(length - 1) <= golomb(s).0 < p2(length)
            &&& golomb(s).0 - p2(length - 1) == literal(t, length - 1).0
        }),
{
    lemma_golomb_length(s, 0);
    let (length, t) = golomb_length(s, 0);
    lemma_literal(t, length - 1);
    assert(p2(length) == 2 * p2(length - 1));
}

/// The level before any tail is at most fifteen, and the last one is not zero.
pub proof fn lemma_level_range(st: Coded, frozen: bool, pt: int, quant: Seq<i32>, c: int, last: bool)
    requires
        st.wf(),
        0 <= pt <= 1,
        0 <= c < 16,
        quant.len() == 16,
        forall|k: int| 0 <= k < 16 ==> 0 <= #[trigger] quant[k] <= 15,
    ensures
        0 <= level(st, frozen, pt, quant, c, last).0 <= 15,
        last ==> level(st, frozen, pt, quant, c, last).0 >= 1,
        level(st, frozen, pt, quant, c, last).1.wf(),
{
    reveal(level);
    let pos = DEFAULT_SCAN_4X4@[c] as int;
    lemma_contexts_grow(quant, quant, pos);
    assert(0 <= base_context(quant, pos) < 42) by {
        let (row, col) = (pos / 4, pos % 4);
        assert(0 <= row < 4 && 0 <= col < 4);
        assert(COEFF_BASE_CTX_OFFSET_4X4@[row]@[col] <= 21);
    }
    let k = if last {
        ROW_BASE_EOB + 4 * pt + last_context(c)
    } else {
        ROW_BASE + 42 * pt + base_context(quant, pos)
    };
    lemma_next(st, frozen, k);
    let (b, t) = next(st, frozen, k);
    let base = if last {
        b + 1
    } else {
        b
    };
    if base > 2 {
        lemma_extended(t, frozen, ROW_BR + 21 * pt + extension_context(quant, pos), base, 4);
    }
}

/// An extension adds at most three a round.
proof fn lemma_extended(st: Coded, frozen: bool, k: int, level: int, rounds: int)
    requires
        st.wf(),
        ROW_BR <= k < ROW_BR + 42,
        rounds >= 0,
    ensures
        level <= extended(st, frozen, k, level, rounds).0 <= level + 3 * rounds,
        extended(st, frozen, k, level, rounds).1.wf(),
    decreases rounds,
{
    if rounds > 0 {
        lemma_next(st, frozen, k);
        let (b, t) = next(st, frozen, k);
        if b >= 3 {
            lemma_extended(t, frozen, k, level + b, rounds - 1);
        }
    }
}

/// The levels that are read are those of the scan before the end of the block, the last of
/// which is not zero; the others stay.
pub proof fn lemma_levels_before_the_end(st: Coded, frozen: bool, pt: int, quant: Seq<i32>, eob: int, c: int)
    requires
        st.wf(),
        0 <= pt <= 1,
        0 <= c <= eob <= 16,
        quant.len() == 16,
        forall|k: int| 0 <= k < 16 ==> 0 <= #[trigger] quant[k] <= 15,
    ensures
        ({
            let r = levels(st, frozen, pt, quant, eob, c).0;
            &&& r.len() == 16
            &&& forall|k: int| 0 <= k < 16 ==> 0 <= #[trigger] r[k] <= 15
            &&& forall|k: int|
                c <= k < 16 ==> r[(#[trigger] DEFAULT_SCAN_4X4@[k]) as int] == quant[DEFAULT_SCAN_4X4@[k] as int]
            &&& c == eob && c > 0 ==> r[DEFAULT_SCAN_4X4@[c - 1] as int] >= 1
        }),
        levels(st, frozen, pt, quant, eob, c).1.wf(),
    decreases c,
{
    if c > 0 {
        let (v, t) = level(st, frozen, pt, quant, c - 1, c == eob);
        lemma_level_range(st, frozen, pt, quant, c - 1, c == eob);
        let pos = DEFAULT_SCAN_4X4@[c - 1] as int;
        assert(0 <= pos < 16);
        let q = quant.update(pos, v as i32);
        assert(q[pos] == v);
        lemma_levels_before_the_end(t, frozen, pt, q, eob, c - 1);
        let r = levels(st, frozen, pt, quant, eob, c).0;
        assert(r[DEFAULT_SCAN_4X4@[c - 1] as int] == q[pos]);
        assert forall|k: int| c <= k < 16 implies r[(#[trigger] DEFAULT_SCAN_4X4@[k]) as int] == quant[DEFAULT_SCAN_4X4@[k] as int] by {
            lemma_scan_visits_once(c - 1, k);
        }
    }
}

/// The magnitude of a level.
pub open spec fn magnitude(v: i32) -> int {
    if v >= 0 {
        v as int
    } else {
        -v
    }
}

/// The magnitudes of the levels at scan indices from `c` up to an end, added up.
pub open spec fn magnitudes_from(q: Seq<i32>, c: int, end: int) -> int
    decreases end - c,
{
    if c >= end {
        0
    } else {
        magnitude(q[DEFAULT_SCAN_4X4@[c] as int]) + magnitudes_from(q, c + 1, end)
    }
}

/// The signs and tails: levels outside the scan's rest stay, a zero stays zero, and what is
/// added up is the magnitudes that come out.
proof fn lemma_signs(st: Coded, frozen: bool, pt: int, dc_ctx: int, quant: Seq<i32>, eob: int, c: int, cul: int, dc: int)
    requires
        st.wf(),
        0 <= pt <= 1,
        0 <= c <= eob <= 16,
        quant.len() == 16,
        quant[0] != 0 && c == 0 ==> 0 <= dc_ctx < 3,
        forall|k: int| c <= k < 16 ==> 0 <= quant[(#[trigger] DEFAULT_SCAN_4X4@[k]) as int] <= 15,
    ensures
        ({
            let (r, sum, first, end) = signs(st, frozen, pt, dc_ctx, quant, eob, c, cul, dc);
            &&& r.len() == 16
            &&& sum == cul + magnitudes_from(r, c, eob)
            &&& forall|k: int|
                0 <= k < c || eob <= k < 16 ==> r[(#[trigger] DEFAULT_SCAN_4X4@[k]) as int] == quant[DEFAULT_SCAN_4X4@[k] as int]
            &&& forall|k: int|
                c <= k < eob ==> (quant[(#[trigger] DEFAULT_SCAN_4X4@[k]) as int] == 0 ==> r[DEFAULT_SCAN_4X4@[k] as int] == 0)
            &&& forall|k: int|
                c <= k < eob ==> (1 <= quant[(#[trigger] DEFAULT_SCAN_4X4@[k]) as int] <= 14 ==> magnitude(
                    r[DEFAULT_SCAN_4X4@[k] as int],
                ) == quant[DEFAULT_SCAN_4X4@[k] as int])
            &&& c > 0 || eob == 0 ==> first == dc
            &&& c == 0 && eob > 0 && r[0] < 0 ==> first == 1
            &&& c == 0 && eob > 0 && r[0] > 0 ==> first == 2
            &&& c == 0 && eob > 0 && quant[0] == 0 ==> first == dc
        }),
    decreases eob - c,
{
    if c < eob {
        let pos = DEFAULT_SCAN_4X4@[c] as int;
        assert(0 <= pos < 16 && (pos == 0 <==> c == 0));
        let (sign, m, t) = signed(st, frozen, pt, dc_ctx, c, quant[pos] as int);
        assert(t.wf() && 0 <= m <= 0x20_0010 && (quant[pos] == 0 ==> m == 0 && !sign) && (quant[pos] != 0 ==> m > 0) && (1
            <= quant[pos] <= 14 ==> m == quant[pos])) by {
            lemma_signed(st, frozen, pt, dc_ctx, c, quant[pos] as int);
        }
        let kept = m % 0x10_0000;
        let v = (if sign {
            -kept
        } else {
            kept
        }) as i32;
        let q = quant.update(pos, v);
        let now = if pos == 0 && m > 0 {
            if sign {
                1int
            } else {
                2
            }
        } else {
            dc
        };
        assert forall|k: int| c + 1 <= k < 16 implies 0 <= q[(#[trigger] DEFAULT_SCAN_4X4@[k]) as int] <= 15 by {
            lemma_scan_visits_once(c, k);
        }
        lemma_signs(t, frozen, pt, dc_ctx, q, eob, c + 1, cul + kept, now);
        let (r, sum, first, end) = signs(t, frozen, pt, dc_ctx, q, eob, c + 1, cul + kept, now);
        assert(signs(st, frozen, pt, dc_ctx, quant, eob, c, cul, dc) == (r, sum, first, end));
        assert(r[DEFAULT_SCAN_4X4@[c] as int] == q[pos]);
        assert(magnitude(r[pos]) == kept);
        assert forall|k: int| 0 <= k < c || eob <= k < 16 implies r[(#[trigger] DEFAULT_SCAN_4X4@[k]) as int]
            == quant[DEFAULT_SCAN_4X4@[k] as int] by {
            if k < c {
                lemma_scan_visits_once(k, c);
            } else {
                lemma_scan_visits_once(c, k);
            }
        }
        assert forall|k: int| c <= k < eob implies (quant[(#[trigger] DEFAULT_SCAN_4X4@[k]) as int] == 0
            ==> r[DEFAULT_SCAN_4X4@[k] as int] == 0) && (1 <= quant[DEFAULT_SCAN_4X4@[k] as int] <= 14 ==> magnitude(
            r[DEFAULT_SCAN_4X4@[k] as int],
        ) == quant[DEFAULT_SCAN_4X4@[k] as int]) by {
            if k > c {
                lemma_scan_visits_once(c, k);
            }
        }
    }
}

/// A level's sign and tail keep a zero and a small level, and the state well formed.
proof fn lemma_signed(st: Coded, frozen: bool, pt: int, dc_ctx: int, c: int, level: int)
    requires
        st.wf(),
        0 <= pt <= 1,
        0 <= level <= 15,
        c == 0 && level != 0 ==> 0 <= dc_ctx < 3,
    ensures
        ({
            let (sign, m, t) = signed(st, frozen, pt, dc_ctx, c, level);
            &&& t.wf()
            &&& 0 <= m <= 0x20_0010
            &&& level == 0 ==> m == 0 && !sign
            &&& level != 0 ==> m > 0
            &&& level <= 14 ==> m == level
            &&& level == 15 ==> m >= 15
        }),
{
    if level != 0 {
        if c == 0 {
            lemma_next(st, frozen, ROW_DC_SIGN + 3 * pt + dc_ctx);
        } else {
            lemma_decode(st.sym, even_cdf());
        }
        if level > 14 {
            let t = if c == 0 {
                next(st, frozen, ROW_DC_SIGN + 3 * pt + dc_ctx).1
            } else {
                super::coeff::coin(st).1
            };
            lemma_golomb_length(t.sym, 0);
            let (length, u) = golomb_length(t.sym, 0);
            lemma_literal(u, length - 1);
            lemma_p2_mono(length - 1, 20);
            lemma_p2_pos(length - 1);
            lemma_p2_values();
        }
    }
}

/// What a block's coefficients leave to its neighbours: their magnitudes added up, held to
/// 63, and whether the first is negative or positive. Behind the end of the block every
/// coefficient is zero.
pub proof fn lemma_block_is_summed_up(st: Coded, frozen: bool, pt: int, dc_ctx: int, k: int)
    requires
        st.wf(),
        0 <= pt <= 1,
        0 <= dc_ctx,
        0 <= k < 16,
    ensures
        coded_block(st, frozen, pt, dc_ctx) matches Some((b, _)) ==> {
            let q = b.quant;
            let sum = magnitude(q[0]) + magnitude(q[1]) + magnitude(q[2]) + magnitude(q[3]) + magnitude(q[4]) + magnitude(
                q[5],
            ) + magnitude(q[6]) + magnitude(q[7]) + magnitude(q[8]) + magnitude(q[9]) + magnitude(q[10]) + magnitude(q[11])
                + magnitude(q[12]) + magnitude(q[13]) + magnitude(q[14]) + magnitude(q[15]);
            &&& q.len() == 16
            &&& 1 <= b.eob <= 16
            &&& b.cul_level == (if sum < 63 {
                sum
            } else {
                63
            })
            &&& q[0] < 0 ==> b.dc_category == 1
            &&& q[0] > 0 ==> b.dc_category == 2
            &&& k >= b.eob ==> q[DEFAULT_SCAN_4X4@[k] as int] == 0
        },
{
    lemma_end_of_block(st, frozen, pt);
    let (eob, a) = end_of_block(st, frozen, pt);
    assert(a.wf()) by {
        lemma_next(st, frozen, ROW_EOB_PT + 2 * pt);
        let (class, u) = next(st, frozen, ROW_EOB_PT + 2 * pt);
        if class > 1 {
            lemma_next(u, frozen, ROW_EOB_EXTRA + 9 * pt + class - 2);
            let (x, b) = next(u, frozen, ROW_EOB_EXTRA + 9 * pt + class - 2);
            lemma_literal(b.sym, class - 2);
        }
    }
    let blank = Seq::new(16, |i: int| 0i32);
    let (quant, b) = levels(a, frozen, pt, blank, eob, eob);
    lemma_levels_before_the_end(a, frozen, pt, blank, eob, eob);
    if !(quant[0] != 0 && dc_ctx >= 3) {
        assert forall|n: int| 0 <= n < 16 implies 0 <= quant[(#[trigger] DEFAULT_SCAN_4X4@[n]) as int] <= 15 by {
            assert(0 <= DEFAULT_SCAN_4X4@[n] < 16);
        }
        lemma_signs(b, frozen, pt, dc_ctx, quant, eob, 0, 0, 0);
        let r = signs(b, frozen, pt, dc_ctx, quant, eob, 0, 0, 0).0;
        assert forall|n: int| eob <= n < 16 implies r[(#[trigger] DEFAULT_SCAN_4X4@[n]) as int] == 0 by {
            assert(0 <= DEFAULT_SCAN_4X4@[n] < 16);
            assert(r[DEFAULT_SCAN_4X4@[n] as int] == quant[DEFAULT_SCAN_4X4@[n] as int]);
            assert(quant[DEFAULT_SCAN_4X4@[n] as int] == blank[DEFAULT_SCAN_4X4@[n] as int]);
        }
        lemma_sum_reaches(r, 0, eob);
        lemma_sum_of_all(r);
    }
}

/// Zeros behind the end add nothing.
proof fn lemma_sum_reaches(q: Seq<i32>, c: int, end: int)
    requires
        0 <= c,
        c <= end <= 16,
        q.len() == 16,
        forall|k: int| end <= k < 16 ==> q[(#[trigger] DEFAULT_SCAN_4X4@[k]) as int] == 0,
    ensures
        magnitudes_from(q, c, end) == magnitudes_from(q, c, 16),
    decreases 16 - c,
{
    if c < end {
        lemma_sum_reaches(q, c + 1, end);
    } else if c < 16 {
        assert(q[DEFAULT_SCAN_4X4@[c] as int] == 0);
        lemma_sum_reaches(q, c + 1, c + 1);
    }
}

/// The scan adds up all sixteen.
proof fn lemma_sum_of_all(q: Seq<i32>)
    requires
        q.len() == 16,
    ensures
        magnitudes_from(q, 0, 16) == magnitude(q[0]) + magnitude(q[1]) + magnitude(q[2]) + magnitude(q[3]) + magnitude(q[4])
            + magnitude(q[5]) + magnitude(q[6]) + magnitude(q[7]) + magnitude(q[8]) + magnitude(q[9]) + magnitude(q[10])
            + magnitude(q[11]) + magnitude(q[12]) + magnitude(q[13]) + magnitude(q[14]) + magnitude(q[15]),
{
    reveal_with_fuel(magnitudes_from, 17);
}

/// Whether a row is one of luma (`pt` zero) or of chroma.
pub open spec fn row_of(k: int, pt: int) -> bool {
    ||| 13 + 2 * pt <= k < 15 + 2 * pt
    ||| 17 + 9 * pt <= k < 26 + 9 * pt
    ||| 35 + 4 * pt <= k < 39 + 4 * pt
    ||| 43 + 42 * pt <= k < 85 + 42 * pt
    ||| 127 + 21 * pt <= k < 148 + 21 * pt
    ||| 169 + 3 * pt <= k < 172 + 3 * pt
}

/// Whether the rows that are not one plane type's are the same in two states.
spec fn apart(a: Coded, b: Coded, pt: int) -> bool {
    &&& a.rows.len() == b.rows.len()
    &&& forall|k: int| 0 <= k < a.rows.len() && !row_of(k, pt) ==> #[trigger] a.rows[k] == b.rows[k]
}

/// Reading through a row changes no other.
proof fn lemma_next_apart(st: Coded, frozen: bool, k: int, pt: int)
    requires
        st.wf(),
        0 <= k < 175,
        row_of(k, pt),
    ensures
        apart(st, next(st, frozen, k).1, pt),
        next(st, frozen, k).1.wf(),
        frozen ==> next(st, frozen, k).1.rows == st.rows,
{
    lemma_next(st, frozen, k);
    reveal(turn);
}

/// Extending a level reads through one row.
proof fn lemma_extended_apart(st: Coded, frozen: bool, k: int, level: int, rounds: int, pt: int)
    requires
        st.wf(),
        0 <= pt <= 1,
        ROW_BR + 21 * pt <= k < ROW_BR + 21 * pt + 21,
    ensures
        apart(st, extended(st, frozen, k, level, rounds).1, pt),
        frozen ==> extended(st, frozen, k, level, rounds).1.rows == st.rows,
    decreases rounds,
{
    if rounds > 0 {
        lemma_next_apart(st, frozen, k, pt);
        let (b, t) = next(st, frozen, k);
        if b >= 3 {
            lemma_extended_apart(t, frozen, k, level + b, rounds - 1, pt);
        }
    }
}

/// Reading the levels keeps to the rows of the plane type.
proof fn lemma_levels_apart(st: Coded, frozen: bool, pt: int, quant: Seq<i32>, eob: int, c: int)
    requires
        st.wf(),
        0 <= pt <= 1,
        0 <= c <= eob <= 16,
        quant.len() == 16,
        forall|k: int| 0 <= k < 16 ==> 0 <= #[trigger] quant[k] <= 15,
    ensures
        apart(st, levels(st, frozen, pt, quant, eob, c).1, pt),
        frozen ==> levels(st, frozen, pt, quant, eob, c).1.rows == st.rows,
    decreases c,
{
    if c > 0 {
        let last = c == eob;
        let (v, t) = level(st, frozen, pt, quant, c - 1, last);
        lemma_level_range(st, frozen, pt, quant, c - 1, last);
        let pos = DEFAULT_SCAN_4X4@[c - 1] as int;
        assert(apart(st, t, pt) && (frozen ==> t.rows == st.rows)) by {
            reveal(level);
            lemma_contexts_grow(quant, quant, pos);
            assert(0 <= base_context(quant, pos) < 42) by {
                let (row, col) = (pos / 4, pos % 4);
                assert(0 <= row < 4 && 0 <= col < 4);
                assert(COEFF_BASE_CTX_OFFSET_4X4@[row]@[col] <= 21);
            }
            let k = if last {
                ROW_BASE_EOB + 4 * pt + last_context(c - 1)
            } else {
                ROW_BASE + 42 * pt + base_context(quant, pos)
            };
            lemma_next_apart(st, frozen, k, pt);
            let (b, u) = next(st, frozen, k);
            let base = if last {
                b + 1
            } else {
                b
            };
            if base > 2 {
                lemma_extended_apart(u, frozen, ROW_BR + 21 * pt + extension_context(quant, pos), base, 4, pt);
            }
        }
        let q = quant.update(pos, v as i32);
        lemma_levels_apart(t, frozen, pt, q, eob, c - 1);
    }
}

/// Reading the signs keeps to the rows of the plane type.
proof fn lemma_signs_apart(st: Coded, frozen: bool, pt: int, dc_ctx: int, quant: Seq<i32>, eob: int, c: int, cul: int, dc: int)
    requires
        st.wf(),
        0 <= pt <= 1,
        0 <= c <= eob <= 16,
        quant.len() == 16,
        quant[0] != 0 && c == 0 ==> 0 <= dc_ctx < 3,
        forall|k: int| c <= k < 16 ==> 0 <= quant[(#[trigger] DEFAULT_SCAN_4X4@[k]) as int] <= 15,
    ensures
        apart(st, signs(st, frozen, pt, dc_ctx, quant, eob, c, cul, dc).3, pt),
        frozen ==> signs(st, frozen, pt, dc_ctx, quant, eob, c, cul, dc).3.rows == st.rows,
    decreases eob - c,
{
    if c < eob {
        let pos = DEFAULT_SCAN_4X4@[c] as int;
        assert(0 <= pos < 16 && (pos == 0 <==> c == 0));
        let (sign, m, t) = signed(st, frozen, pt, dc_ctx, c, quant[pos] as int);
        lemma_signed(st, frozen, pt, dc_ctx, c, quant[pos] as int);
        if quant[pos] != 0 && c == 0 {
            lemma_next_apart(st, frozen, ROW_DC_SIGN + 3 * pt + dc_ctx, pt);
        }
        let kept = m % 0x10_0000;
        let q = quant.update(
            pos,
            (if sign {
                -kept
            } else {
                kept
            }) as i32,
        );
        assert forall|k: int| c + 1 <= k < 16 implies 0 <= q[(#[trigger] DEFAULT_SCAN_4X4@[k]) as int] <= 15 by {
            lemma_scan_visits_once(c, k);
        }
        lemma_signs_apart(
            t,
            frozen,
            pt,
            dc_ctx,
            q,
            eob,
            c + 1,
            cul + kept,
            if pos == 0 && m > 0 {
                if sign {
                    1
                } else {
                    2
                }
            } else {
                dc
            },
        );
    }
}

/// Luma and chroma keep apart: the coefficients of a block of one adapt no distribution of
/// the other, and where distributions are left as they are, none at all.
pub proof fn lemma_planes_keep_apart(st: Coded, frozen: bool, pt: int, dc_ctx: int, k: int)
    requires
        st.wf(),
        0 <= pt <= 1,
        0 <= dc_ctx,
        0 <= k < 175,
    ensures
        coded_block(st, frozen, pt, dc_ctx) matches Some((_, end)) ==> {
            &&& end.rows.len() == st.rows.len()
            &&& row_of(k, 1 - pt) ==> end.rows[k] == st.rows[k]
            &&& k < 13 ==> end.rows[k] == st.rows[k]
            &&& frozen ==> end.rows == st.rows
        },
{
    lemma_end_of_block(st, frozen, pt);
    let (eob, a) = end_of_block(st, frozen, pt);
    lemma_next_apart(st, frozen, ROW_EOB_PT + 2 * pt, pt);
    let (class, u) = next(st, frozen, ROW_EOB_PT + 2 * pt);
    lemma_next(st, frozen, ROW_EOB_PT + 2 * pt);
    if class > 1 {
        lemma_next_apart(u, frozen, ROW_EOB_EXTRA + 9 * pt + class - 2, pt);
        let (x, b) = next(u, frozen, ROW_EOB_EXTRA + 9 * pt + class - 2);
        lemma_literal(b.sym, class - 2);
    }
    assert(a.wf() && apart(st, a, pt) && (frozen ==> a.rows == st.rows));
    let blank = Seq::new(16, |i: int| 0i32);
    let (quant, b) = levels(a, frozen, pt, blank, eob, eob);
    lemma_levels_before_the_end(a, frozen, pt, blank, eob, eob);
    lemma_levels_apart(a, frozen, pt, blank, eob, eob);
    if !(quant[0] != 0 && dc_ctx >= 3) {
        assert forall|n: int| 0 <= n < 16 implies 0 <= quant[(#[trigger] DEFAULT_SCAN_4X4@[n]) as int] <= 15 by {
            assert(0 <= DEFAULT_SCAN_4X4@[n] < 16);
        }
        lemma_signs_apart(b, frozen, pt, dc_ctx, quant, eob, 0, 0, 0);
        let end = signs(b, frozen, pt, dc_ctx, quant, eob, 0, 0, 0).3;
        if !row_of(k, pt) {
            assert(end.rows[k] == b.rows[k] && b.rows[k] == a.rows[k] && a.rows[k] == st.rows[k]);
        }
    }
}

} // verus!
