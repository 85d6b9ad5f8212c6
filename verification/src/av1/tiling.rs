//! What holds of how a tile is cut up and put together: parts tile their square, blocks
//! of samples land where they belong, and contexts do not tell rows from columns.
use super::block::Setup;
use super::edges::is_decoded;
use super::modes::{share, split_share};
use super::plane::Samples;
use super::shapes::lemma_largest_fills_the_block;
use super::tile::{chroma_size, flagged, partition_kind, parts, span_balance, span_max, Levels, Tile, PARTITION_SPLIT};
use super::transform::TxSize;
use super::tx_size::{largest, BLOCK_SHAPES};
use super::units::{lemma_grid, painted, recorded, Unit};
use crate::math::lemma_p2_values;
use vstd::arithmetic::div_mod::{lemma_fundamental_div_mod, lemma_fundamental_div_mod_converse};
use vstd::prelude::*;

verus! {

/// Whether a part holds a unit.
pub open spec fn holds(part: (int, int, int, int), y: int, x: int) -> bool {
    part.0 <= y < part.0 + part.3 && part.1 <= x < part.1 + part.2
}

/// The parts of a square tile it: each unit of the square that the frame has is in one part
/// and in no other, and no part leaves the square.
pub proof fn lemma_parts_tile_the_square(s: Setup, kind: int, r: int, c: int, b: int, y: int, x: int)
    requires
        0 <= kind <= 9,
        kind != PARTITION_SPLIT,
        b >= 1,
        kind > 0 ==> b % 2 == 0,
        kind >= 8 ==> b % 4 == 0,
        r <= y < r + b,
        c <= x < c + b,
        y < s.mi_rows,
        x < s.mi_cols,
    ensures
        ({
            let p = parts(s, kind, r, c, b);
            &&& exists|i: int| 0 <= i < p.len() && holds(#[trigger] p[i], y, x)
            &&& forall|i: int, j: int|
                0 <= i < p.len() && 0 <= j < p.len() && holds(#[trigger] p[i], y, x) && holds(#[trigger] p[j], y, x) ==> i
                    == j
            &&& forall|i: int|
                0 <= i < p.len() ==> r <= (#[trigger] p[i]).0 && p[i].0 + p[i].3 <= r + b && c <= p[i].1 && p[i].1 + p[i].2
                    <= c + b && p[i].2 > 0 && p[i].3 > 0
        }),
{
    let p = parts(s, kind, r, c, b);
    let (half, quarter) = (b / 2, b / 4);
    assert(kind > 0 ==> b == 2 * half);
    assert(kind >= 8 ==> b == 4 * quarter && half == 2 * quarter);
    assert(1 <= p.len() <= 4);
    assert(holds(p[0], y, x) || (p.len() > 1 && holds(p[1], y, x)) || (p.len() > 2 && holds(p[2], y, x)) || (p.len() > 3
        && holds(p[3], y, x)));
}

/// A square that hangs over both edges is split; over the bottom alone it is split or halved
/// across, over the right alone split or halved down.
pub proof fn lemma_hanging_squares(s: Setup, t: Tile, r: int, c: int, b: int)
    requires
        b >= 2,
    ensures
        ({
            let kind = partition_kind(s, t, r, c, b).0;
            let (over_bottom, over_right) = (r + b / 2 >= s.mi_rows, c + b / 2 >= s.mi_cols);
            &&& over_bottom && over_right ==> kind == PARTITION_SPLIT && partition_kind(s, t, r, c, b).1 == t.st
            &&& over_bottom && !over_right ==> kind == PARTITION_SPLIT || kind == 1
            &&& !over_bottom && over_right ==> kind == PARTITION_SPLIT || kind == 2
        }),
{
}

/// What a split of a hanging square leaves is the probability of the types that do not cut
/// the other way: over the bottom the whole and those cut across, over the right the whole
/// and those cut down.
pub proof fn lemma_split_leaves(row: Seq<u16>)
    requires
        row.len() >= 10,
        row[9] == 32768,
    ensures
        32768 - split_share(row, true, false) == share(row, 0) + share(row, 1) + share(row, 5) + share(row, 8),
        32768 - split_share(row, false, false) == share(row, 0) + share(row, 2) + share(row, 7) + share(row, 9),
{
}

/// Painting a block puts each of its samples in its place, and leaves the samples around it.
pub proof fn lemma_painted_in_place(p: Samples, x: int, y: int, w: int, h: int, block: Seq<u16>, u: int, v: int)
    requires
        p.wf(),
        block.len() == w * h,
        0 <= u < p.width,
        0 <= v < p.height,
        0 < w,
        0 < h,
    ensures
        ({
            let q = painted(p, x, y, w, h, block);
            &&& q.width == p.width
            &&& q.height == p.height
            &&& x <= u < x + w && y <= v < y + h ==> q.data[v * p.width + u] == block[(v - y) * w + (u - x)]
            &&& !(x <= u < x + w && y <= v < y + h) ==> q.data[v * p.width + u] == p.data[v * p.width + u]
        }),
{
    lemma_grid(p.width, p.height, v, u);
}

/// The greatest of a span is at least each of its values, and is one of them or zero.
pub proof fn lemma_span_max(row: Seq<u8>, at: int, n: int)
    requires
        0 <= at,
        0 <= n,
    ensures
        forall|i: int| at <= i < at + n && i < row.len() ==> #[trigger] row[i] <= span_max(row, at, n),
        span_max(row, at, n) == 0 || exists|i: int|
            at <= i < at + n && i < row.len() && #[trigger] row[i] == span_max(row, at, n),
        span_max(row, at, n) >= 0,
    decreases n,
{
    if n > 0 {
        lemma_span_max(row, at, n - 1);
        let (m, k) = (span_max(row, at, n - 1), at + n - 1);
        if span_max(row, at, n) == m {
            if m != 0 {
                let i = choose|i: int| at <= i < at + n - 1 && i < row.len() && #[trigger] row[i] == m;
                assert(row[i] == span_max(row, at, n));
            }
        } else {
            assert(row[k] == span_max(row, at, n));
        }
    }
}

/// The sign with the other direction.
pub open spec fn opposite(sign: u8) -> u8 {
    if sign == 1 {
        2
    } else if sign == 2 {
        1
    } else {
        sign
    }
}

/// A span whose signs are turned balances the other way, and one with a further positive
/// sign by one more.
pub proof fn lemma_balance_turns(row: Seq<u8>, turned: Seq<u8>, at: int, n: int)
    requires
        0 <= at,
        row.len() == turned.len(),
        forall|i: int| 0 <= i < row.len() ==> #[trigger] turned[i] == opposite(row[i]),
    ensures
        span_balance(turned, at, n) == -span_balance(row, at, n),
        n > 0 && at + n <= row.len() && row[at + n - 1] == 2 ==> span_balance(row, at, n) == span_balance(row, at, n - 1) + 1,
    decreases n,
{
    if n > 0 {
        lemma_balance_turns(row, turned, at, n - 1);
    }
}

/// The size with its sides exchanged.
pub open spec fn sides_exchanged(t: TxSize) -> TxSize {
    match t {
        TxSize::Tx4x8 => TxSize::Tx8x4,
        TxSize::Tx8x4 => TxSize::Tx4x8,
        TxSize::Tx8x16 => TxSize::Tx16x8,
        TxSize::Tx16x8 => TxSize::Tx8x16,
        TxSize::Tx16x32 => TxSize::Tx32x16,
        TxSize::Tx32x16 => TxSize::Tx16x32,
        TxSize::Tx32x64 => TxSize::Tx64x32,
        TxSize::Tx64x32 => TxSize::Tx32x64,
        TxSize::Tx4x16 => TxSize::Tx16x4,
        TxSize::Tx16x4 => TxSize::Tx4x16,
        TxSize::Tx8x32 => TxSize::Tx32x8,
        TxSize::Tx32x8 => TxSize::Tx8x32,
        TxSize::Tx16x64 => TxSize::Tx64x16,
        TxSize::Tx64x16 => TxSize::Tx16x64,
        _ => t,
    }
}

/// What is above and what is to the left exchanged.
pub open spec fn levels_exchanged(l: Levels) -> Levels {
    Levels {
        above_level: l.left_level,
        above_dc: l.left_dc,
        left_level: l.above_level,
        left_dc: l.above_dc,
    }
}

/// The contexts that the levels and signs around a block give it do not tell rows from
/// columns.
pub proof fn lemma_level_contexts_exchange(l: Levels, plane: int, x4: int, y4: int, size: TxSize, bw4: int, bh4: int)
    ensures
        l.zero_context(plane, x4, y4, size, bw4, bh4) == levels_exchanged(l).zero_context(
            plane,
            y4,
            x4,
            sides_exchanged(size),
            bh4,
            bw4,
        ),
        l.sign_context(x4, y4, size) == levels_exchanged(l).sign_context(y4, x4, sides_exchanged(size)),
        sides_exchanged(size).w() == size.h(),
        sides_exchanged(size).h() == size.w(),
{
    let (w, h) = (size.w(), size.h());
    assert(w * h == h * w && (4 * bw4) * (4 * bh4) == (4 * bh4) * (4 * bw4)) by (nonlinear_arith);
}

/// The context of whether a luma block has coefficients is zero where it fills its block, one
/// where nothing is around it, and else grows with the levels on either side; that of a
/// chroma block counts the sides that have any, and whether the block is larger.
pub proof fn lemma_zero_contexts(l: Levels, more: Levels, plane: int, x4: int, y4: int, size: TxSize, bw4: int, bh4: int)
    requires
        plane >= 0,
        span_max(l.above_level, x4, size.w() / 4) <= span_max(more.above_level, x4, size.w() / 4),
        span_max(l.left_level, y4, size.h() / 4) <= span_max(more.left_level, y4, size.h() / 4),
        span_max(l.above_dc, x4, size.w() / 4) <= span_max(more.above_dc, x4, size.w() / 4),
        span_max(l.left_dc, y4, size.h() / 4) <= span_max(more.left_dc, y4, size.h() / 4),
        0 <= x4,
        0 <= y4,
    ensures
        ({
            let k = l.zero_context(plane, x4, y4, size, bw4, bh4);
            let (top, left) = (span_max(l.above_level, x4, size.w() / 4), span_max(l.left_level, y4, size.h() / 4));
            &&& k <= more.zero_context(plane, x4, y4, size, bw4, bh4)
            &&& plane == 0 ==> 0 <= k <= 6
            &&& plane == 0 && 4 * bw4 == size.w() && 4 * bh4 == size.h() ==> k == 0
            &&& plane == 0 && !(4 * bw4 == size.w() && 4 * bh4 == size.h()) ==> k >= 1 && (k == 1 <==> top == 0 && left == 0)
                && (k >= 4 <==> top != 0 && left != 0) && (k == 6 <==> top > 3 && left > 3)
            &&& plane > 0 ==> 7 <= k <= 12
            &&& plane > 0 && (4 * bw4) * (4 * bh4) > size.w() * size.h() ==> k >= 10
            &&& plane > 0 && (4 * bw4) * (4 * bh4) <= size.w() * size.h() ==> k <= 9
        }),
{
    lemma_p2_values();
    let (w4, h4) = (size.w() / 4, size.h() / 4);
    assert(w4 >= 1 && h4 >= 1);
    lemma_span_max(l.above_level, x4, w4);
    lemma_span_max(l.left_level, y4, h4);
    lemma_span_max(l.above_dc, x4, w4);
    lemma_span_max(l.left_dc, y4, h4);
    lemma_span_max(more.above_level, x4, w4);
    lemma_span_max(more.left_level, y4, h4);
}

/// What a block leaves is found by the blocks beside it: every unit of its sides has its
/// level and its sign, and every other unit what it had.
pub proof fn lemma_left_by_is_found(l: Levels, x4: int, y4: int, w4: int, h4: int, level: u8, sign: u8, i: int)
    requires
        0 <= i,
    ensures
        ({
            let a = l.left_by(x4, y4, w4, h4, level, sign);
            &&& i < l.above_level.len() ==> a.above_level[i] == (if x4 <= i < x4 + w4 {
                level
            } else {
                l.above_level[i]
            })
            &&& i < l.above_dc.len() ==> a.above_dc[i] == (if x4 <= i < x4 + w4 {
                sign
            } else {
                l.above_dc[i]
            })
            &&& i < l.left_level.len() ==> a.left_level[i] == (if y4 <= i < y4 + h4 {
                level
            } else {
                l.left_level[i]
            })
            &&& i < l.left_dc.len() ==> a.left_dc[i] == (if y4 <= i < y4 + h4 {
                sign
            } else {
                l.left_dc[i]
            })
        }),
{
}

/// Chroma transforms have the sides of the block's largest, up to 32 samples.
pub proof fn lemma_chroma_sides(block: int)
    requires
        0 <= block < 22,
    ensures
        ({
            let (w, h) = (4 * BLOCK_SHAPES@[block].0, 4 * BLOCK_SHAPES@[block].1);
            &&& chroma_size(block).w() == (if w < 32 {
                w
            } else {
                32
            })
            &&& chroma_size(block).h() == (if h < 32 {
                h
            } else {
                32
            })
        }),
{
    lemma_largest_fills_the_block(block);
    lemma_p2_values();
    let t = largest(block);
    assert(t.w() == 4 || t.w() == 8 || t.w() == 16 || t.w() == 32 || t.w() == 64);
}

/// A unit that a block covers has what the block leaves, and a unit outside what it had.
pub proof fn lemma_recorded_where_covered(
    units: Seq<Unit>,
    cols: int,
    rows: int,
    r: int,
    c: int,
    wide: int,
    high: int,
    new: Unit,
    y: int,
    x: int,
)
    requires
        units.len() == cols * rows,
        0 <= y < rows,
        0 <= x < cols,
    ensures
        ({
            let (at, inside) = (y * cols + x, r <= y < r + high && c <= x < c + wide);
            let (first, then) = (
                recorded(units, cols, r, c, wide, high, new, false),
                recorded(recorded(units, cols, r, c, wide, high, new, false), cols, r, c, wide, high, new, true),
            );
            &&& !inside ==> first[at] == units[at] && then[at] == units[at]
            &&& inside ==> then[at] == new
        }),
{
    lemma_grid(cols, rows, y, x);
}

/// A remainder grows with its number while it stays below the divisor.
proof fn lemma_remainder_grows(a: int, k: int, side: int)
    requires
        side > 0,
        0 <= k,
        a % side + k < side,
    ensures
        (a + k) % side == a % side + k,
{
    lemma_fundamental_div_mod(a, side);
    let q = a / side;
    let r = a % side;
    assert(a + k == q * side + (r + k)) by (nonlinear_arith)
        requires
            a == side * q + r,
    ;
    lemma_fundamental_div_mod_converse(a + k, side, q, r + k);
}

/// The flags of the first units of a block, in reading order, are set and no others.
proof fn lemma_first_units_are_flagged(flags: Seq<u8>, side: int, x4: int, y4: int, w4: int, h4: int, n: int, row: int, column: int)
    requires
        side > 0,
        x4 >= 0,
        y4 >= 0,
        w4 > 0,
        0 <= n <= w4 * h4,
        x4 % side + w4 <= side,
        y4 % side + h4 <= side,
        flags.len() == (side + 2) * (side + 2),
        -1 <= row <= side,
        -1 <= column <= side,
    ensures
        flagged(flags, side, x4, y4, w4, n).len() == flags.len(),
        is_decoded(flagged(flags, side, x4, y4, w4, n), side + 2, row, column) == (is_decoded(flags, side + 2, row, column)
            || (row >= y4 % side && x4 % side <= column < x4 % side + w4 && (row - y4 % side) * w4 + (column - x4 % side) < n)),
    decreases n,
{
    let at = (row + 1) * (side + 2) + (column + 1);
    assert(0 <= at < (side + 2) * (side + 2)) by (nonlinear_arith)
        requires
            at == (row + 1) * (side + 2) + (column + 1),
            0 <= row + 1 < side + 2,
            0 <= column + 1 < side + 2,
    ;
    let (y, x) = (row - y4 % side, column - x4 % side);
    if n == 0 {
        if y >= 0 && 0 <= x {
            assert(y * w4 >= 0) by (nonlinear_arith)
                requires
                    y >= 0,
                    w4 > 0,
            ;
        }
    } else {
        lemma_first_units_are_flagged(flags, side, x4, y4, w4, h4, n - 1, row, column);
        let (i, j) = ((n - 1) / w4, (n - 1) % w4);
        lemma_fundamental_div_mod(n - 1, w4);
        assert(0 <= i < h4 && 0 <= j < w4) by (nonlinear_arith)
            requires
                n - 1 == w4 * i + j,
                j == (n - 1) % w4,
                w4 > 0,
                0 <= n - 1 < w4 * h4,
        ;
        lemma_remainder_grows(y4, i, side);
        lemma_remainder_grows(x4, j, side);
        let (r, c) = (y4 % side + i, x4 % side + j);
        assert(0 <= r < side && 0 <= c < side);
        let set = (r + 1) * (side + 2) + (c + 1);
        assert(0 <= set < (side + 2) * (side + 2)) by (nonlinear_arith)
            requires
                set == (r + 1) * (side + 2) + (c + 1),
                0 <= r + 1 < side + 2,
                0 <= c + 1 < side + 2,
        ;
        lemma_fundamental_div_mod_converse(set, side + 2, r + 1, c + 1);
        lemma_fundamental_div_mod_converse(at, side + 2, row + 1, column + 1);
        assert(w4 * i == i * w4) by (nonlinear_arith);
        if 0 <= x < w4 && y * w4 + x == n - 1 {
            lemma_fundamental_div_mod_converse(n - 1, w4, y, x);
        }
    }
}

/// What a block has decoded is the block: once its units are flagged, a place of the
/// superblock, its border among them, counts as decoded where the block covers it or where
/// it did before.
pub proof fn lemma_flags_are_the_block(flags: Seq<u8>, side: int, x4: int, y4: int, w4: int, h4: int, row: int, column: int)
    requires
        side > 0,
        x4 >= 0,
        y4 >= 0,
        w4 > 0,
        h4 > 0,
        x4 % side + w4 <= side,
        y4 % side + h4 <= side,
        flags.len() == (side + 2) * (side + 2),
        -1 <= row <= side,
        -1 <= column <= side,
    ensures
        is_decoded(flagged(flags, side, x4, y4, w4, w4 * h4), side + 2, row, column) == (is_decoded(flags, side + 2, row, column)
            || (y4 % side <= row < y4 % side + h4 && x4 % side <= column < x4 % side + w4)),
{
    assert(0 <= w4 * h4) by (nonlinear_arith)
        requires
            w4 > 0,
            h4 > 0,
    ;
    lemma_first_units_are_flagged(flags, side, x4, y4, w4, h4, w4 * h4, row, column);
    let (y, x) = (row - y4 % side, column - x4 % side);
    if 0 <= y && 0 <= x < w4 {
        assert((y * w4 + x < w4 * h4) == (y < h4)) by (nonlinear_arith)
            requires
                0 <= x < w4,
                w4 > 0,
        ;
    }
}

} // verus!
