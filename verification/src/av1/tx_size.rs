//! Transform sizes of coding blocks.
//!
//! A coding block's luma transform size is read once. Lossless forces 4 by 4;
//! otherwise the size starts at the largest rectangular transform that fits the
//! block and, where the frame codes a depth for each block, a symbol splits it
//! down that many levels.
use super::cdf::{rows_hold, rows_ok, turn, CdfTable};
use super::symbol::{Sym, SymbolDecoder};
use super::transform::TxSize;
use crate::error::Outcome;
use vstd::prelude::*;

verus! {

/// The index of the smallest block size.
pub const BLOCK_4X4: usize = 0;

/// The index of the largest rectangular transform that fits each block size.
pub const MAX_TX_SIZE_RECT: [usize; 22] = [
    0, 5, 6, 1, 7, 8, 2, 9, 10, 3, 11, 12, 4, 4, 4, 4, 13, 14, 15, 16, 17, 18,
];

/// How many splits take each block size's largest transform to 4 by 4.
pub const MAX_TX_DEPTH: [usize; 22] = [0, 1, 1, 1, 2, 2, 2, 3, 3, 3, 4, 4, 4, 4, 4, 4, 2, 2, 3, 3, 4, 4];

/// The index of the size one split down from each transform size.
pub const SPLIT_TX_SIZE: [usize; 19] = [0, 0, 1, 2, 3, 0, 0, 1, 1, 2, 2, 3, 3, 5, 6, 7, 8, 9, 10];

/// The block sizes: width and height in units of four samples.
pub const BLOCK_SHAPES: [(usize, usize); 22] = [
    (1, 1),
    (1, 2),
    (2, 1),
    (2, 2),
    (2, 4),
    (4, 2),
    (4, 4),
    (4, 8),
    (8, 4),
    (8, 8),
    (8, 16),
    (16, 8),
    (16, 16),
    (16, 32),
    (32, 16),
    (32, 32),
    (1, 4),
    (4, 1),
    (2, 8),
    (8, 2),
    (4, 16),
    (16, 4),
];

/// The size with a coded index.
pub open spec fn sized(index: int) -> TxSize {
    choose|t: TxSize| #[trigger] t.code() == index
}

/// A size is the one with its own index.
pub proof fn lemma_sized(t: TxSize)
    ensures
        sized(t.code()) == t,
        0 <= t.code() < 19,
{
    let u = sized(t.code());
    assert(u.code() == t.code());
}

/// The largest rectangular transform that fits a block size.
pub open spec fn largest(block: int) -> TxSize {
    if block < 22 {
        sized(MAX_TX_SIZE_RECT@[block] as int)
    } else {
        TxSize::Tx4x4
    }
}

/// The size `depth` splits down from `t`.
pub open spec fn split_down(t: TxSize, depth: int) -> TxSize
    decreases depth,
{
    if depth <= 0 {
        t
    } else {
        split_down(sized(SPLIT_TX_SIZE@[t.code()] as int), depth - 1)
    }
}

/// The largest rectangular transform that fits a block size; 4 by 4 past the last.
pub fn max_tx_size_rect(block: usize) -> (r: TxSize)
    ensures
        r == largest(block as int),
{
    if block < 22 {
        let r = TxSize::from_index(MAX_TX_SIZE_RECT[block]);
        proof {
            lemma_sized(r);
        }
        r
    } else {
        TxSize::Tx4x4
    }
}

/// How many splits take a block size's largest transform to 4 by 4; none past the last.
pub fn max_tx_depth(block: usize) -> (r: usize)
    ensures
        r == if block < 22 {
            MAX_TX_DEPTH@[block as int]
        } else {
            0
        },
{
    if block < 22 {
        MAX_TX_DEPTH[block]
    } else {
        0
    }
}

/// The size one split down.
pub fn split_tx_size(tx: TxSize) -> (r: TxSize)
    ensures
        r == sized(SPLIT_TX_SIZE@[tx.code()] as int),
        r == split_down(tx, 1),
{
    let r = TxSize::from_index(SPLIT_TX_SIZE[tx.index()]);
    proof {
        lemma_sized(r);
        reveal_with_fuel(split_down, 2);
    }
    r
}

/// The index of the block size `w4` by `h4` units of four samples, if there is one.
pub fn block_size_from_4x4(w4: usize, h4: usize) -> (r: Option<usize>)
    ensures
        r is Some ==> r->0 < 22 && BLOCK_SHAPES@[r->0 as int] == (w4, h4),
        r is None ==> forall|i: int| 0 <= i < 22 ==> #[trigger] BLOCK_SHAPES@[i] != (w4, h4),
{
    let mut i: usize = 0;
    while i < 22
        invariant
            i <= 22,
            forall|k: int| 0 <= k < i ==> #[trigger] BLOCK_SHAPES@[k] != (w4, h4),
        decreases 22 - i,
    {
        let (w, h) = BLOCK_SHAPES[i];
        if w == w4 && h == h4 {
            return Some(i);
        }
        i = i + 1;
    }
    None
}

/// A block shape has at most one index.
pub proof fn lemma_block_shapes_differ(i: int, j: int)
    requires
        0 <= i < 22,
        0 <= j < 22,
        BLOCK_SHAPES@[i] == BLOCK_SHAPES@[j],
    ensures
        i == j,
{
}

/// Splitting a block's largest transform as often as its depth says gives 4 by 4.
pub proof fn lemma_depth_reaches_4x4(block: int)
    requires
        0 <= block < 22,
    ensures
        split_down(largest(block), MAX_TX_DEPTH@[block] as int) == TxSize::Tx4x4,
{
    lemma_sized(TxSize::Tx4x4);
    lemma_sized(TxSize::Tx8x8);
    lemma_sized(TxSize::Tx16x16);
    lemma_sized(TxSize::Tx32x32);
    lemma_sized(TxSize::Tx64x64);
    lemma_sized(TxSize::Tx4x8);
    lemma_sized(TxSize::Tx8x4);
    lemma_sized(TxSize::Tx8x16);
    lemma_sized(TxSize::Tx16x8);
    lemma_sized(TxSize::Tx16x32);
    lemma_sized(TxSize::Tx32x16);
    lemma_sized(TxSize::Tx32x64);
    lemma_sized(TxSize::Tx64x32);
    lemma_sized(TxSize::Tx4x16);
    lemma_sized(TxSize::Tx16x4);
    lemma_sized(TxSize::Tx8x32);
    lemma_sized(TxSize::Tx32x8);
    lemma_sized(TxSize::Tx16x64);
    lemma_sized(TxSize::Tx64x16);
    reveal_with_fuel(split_down, 5);
}

/// How many of the neighbouring transforms are at least as large as `max_rect`.
pub open spec fn depth_context(above_w: int, left_h: int, max_rect: TxSize) -> int {
    (if above_w >= max_rect.w() {
        1int
    } else {
        0
    }) + (if left_h >= max_rect.h() {
        1int
    } else {
        0
    })
}

/// The context of the depth symbol: how many of the neighbouring transforms, by
/// the width above and the height to the left, are at least as large as the
/// block's largest. An absent neighbour counts as zero.
pub fn tx_depth_ctx(above_w: usize, left_h: usize, max_rect: TxSize) -> (r: usize)
    ensures
        r == depth_context(above_w as int, left_h as int, max_rect),
        r <= 2,
{
    let a: usize = if above_w >= max_rect.width() {
        1
    } else {
        0
    };
    let b: usize = if left_h >= max_rect.height() {
        1
    } else {
        0
    };
    a + b
}

/// The rows of a depth table: three contexts for each of four depths, with two
/// symbols at the first and three at the others.
pub open spec fn depth_rows(rows: Seq<Seq<u16>>) -> bool {
    &&& rows_ok(rows)
    &&& rows.len() == 12
    &&& rows_hold(rows, 0, 3, 2)
    &&& rows_hold(rows, 3, 9, 3)
}

/// Whether a table is a depth table.
pub fn is_depth_table(table: &CdfTable) -> (r: bool)
    ensures
        r == depth_rows(table@),
{
    table.are_distributions() && table.len() == 12 && table.hold(0, 3, 2) && table.hold(3, 9, 3)
}

/// The depth distributions of one tile.
pub struct TxDepthCdfs {
    /// The distributions.
    pub table: CdfTable,
}

impl TxDepthCdfs {
    /// The rows are those of a depth table.
    pub open spec fn wf(&self) -> bool {
        depth_rows(self.table@)
    }

    /// The distributions a tile starts from.
    pub fn new(defaults: &CdfTable) -> (r: TxDepthCdfs)
        requires
            depth_rows(defaults@),
        ensures
            r.wf(),
            r.table@ == defaults@,
    {
        TxDepthCdfs { table: defaults.duplicate() }
    }
}

/// What decides a coding block's transform size, besides the stream.
pub struct TxSizeParams {
    /// The index of the block size.
    pub block: usize,
    /// Whether the frame codes a depth for each block.
    pub tx_mode_select: bool,
    /// Whether the block is lossless.
    pub lossless: bool,
    /// Whether a depth may be coded for this block.
    pub allow_select: bool,
    /// The width of the transform above, in samples; 0 where there is none.
    pub above_w: usize,
    /// The height of the transform to the left, in samples; 0 where there is none.
    pub left_h: usize,
}

impl TxSizeParams {
    /// Whether a depth symbol is coded.
    pub open spec fn selects(&self) -> bool {
        !self.lossless && self.block > BLOCK_4X4 && self.allow_select && self.tx_mode_select
    }

    /// The row of the depth symbol.
    pub open spec fn depth_row(&self) -> int {
        let depth = if self.block < 22 {
            MAX_TX_DEPTH@[self.block as int] as int
        } else {
            0
        };
        3 * (if 2 <= depth <= 4 {
            depth - 1
        } else {
            0
        }) + depth_context(self.above_w as int, self.left_h as int, largest(self.block as int))
    }
}

/// A block's transform size, and the decoder and the distributions after it.
pub open spec fn block_tx_size(sym: Sym, rows: Seq<Seq<u16>>, frozen: bool, params: TxSizeParams) -> (
    TxSize,
    Sym,
    Seq<Seq<u16>>,
) {
    if params.lossless {
        (TxSize::Tx4x4, sym, rows)
    } else if params.selects() {
        let t = turn(sym, rows, frozen, params.depth_row());
        (split_down(largest(params.block as int), t.0), t.1, t.2)
    } else {
        (largest(params.block as int), sym, rows)
    }
}

/// Read a coding block's luma transform size.
pub fn read_tx_size(dec: &mut SymbolDecoder<'_>, cdfs: &mut TxDepthCdfs, params: &TxSizeParams) -> (r: Outcome<TxSize>)
    requires
        old(dec).wf(),
        old(cdfs).wf(),
    ensures
        r is Ok,
        (r->Ok_0, final(dec).sym(), final(cdfs).table@) == block_tx_size(
            old(dec).sym(),
            old(cdfs).table@,
            old(dec).frozen(),
            *params,
        ),
        final(dec).wf(),
        final(dec).frozen() == old(dec).frozen(),
        final(cdfs).wf(),
{
    if params.lossless {
        return Ok(TxSize::Tx4x4);
    }
    let max_rect = max_tx_size_rect(params.block);
    let max_depth = max_tx_depth(params.block);
    if !(params.block > BLOCK_4X4 && params.allow_select && params.tx_mode_select) {
        return Ok(max_rect);
    }
    let ctx = tx_depth_ctx(params.above_w, params.left_h, max_rect);
    let base: usize = if max_depth == 4 {
        9
    } else if max_depth == 3 {
        6
    } else if max_depth == 2 {
        3
    } else {
        0
    };
    let depth = cdfs.table.read(dec, base + ctx)?;
    let mut tx = max_rect;
    let mut i: usize = 0;
    while i < depth
        invariant
            i <= depth,
            split_down(max_rect, depth as int) == split_down(tx, depth - i),
        decreases depth - i,
    {
        tx = split_tx_size(tx);
        i = i + 1;
    }
    Ok(tx)
}

} // verus!
