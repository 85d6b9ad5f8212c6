//! The tile decoder of intra still pictures.
//!
//! The symbols of a tile walk a tree of partitions. For each block they give its
//! modes and its transform size; every transform block is predicted from the
//! samples around it, and its residual is added. What is remembered of the blocks
//! before selects the distributions of the next.
//!
//! Lossless frames are decoded whole. In a lossy frame the blocks without a
//! residual are; one with a residual is unsupported.
use super::bits::log2;
use super::block::{block_size_index, floor_log2_usize, mode_info, read_mode_info, size_index, ModeInfo, ModeInfoAt, Setup};
use super::cdf::CdfTable;
use super::coeff::{coeff_rows, coefficients, decode_coeffs_4x4, is_coeff_table, next, CoeffCdfs, Coded};
use super::colours::{palettes_fit, unit_fits};
use super::deblock::{filterable, lemma_filtering_keeps_range, ranged, size_of, Deblock, Filtering};
use super::edges::{lemma_prediction_fits, palette_at, predict, prediction, Outlook, PaletteAt, PaletteView, TxAt, TxBlock};
use super::frame::{FrameHeader, FrameModel, TxMode};
use super::modes::{is_mode_table, mode_rows, split_or, Stream, ROW_PARTITION};
use super::plane::{under, Plane, Samples};
use super::seq::{SequenceHeader, SequenceModel};
use super::symbol::{start, symbol_addressable};
use super::transform::{
    dequantized_cells, lemma_products_fit, lemma_rebuilt_fits, quant_row, rebuild, rebuilt, Inverse, QuantTables, TxSize,
    TxType,
};
use super::tx_size::{
    block_tx_size, depth_rows, is_depth_table, largest, lemma_sized, max_tx_size_rect, read_tx_size, TxDepthCdfs, TxSizeParams,
};
use super::units::{lemma_painted_under, mark, marked, paint, painted, record, recorded, span, spanned, Unit};
use crate::error::{unsupported, Fault, Outcome, PixelsError};
use crate::math::{clamp, lemma_p2_pos, lemma_p2_values, max, min, p2};
use vstd::prelude::*;

verus! {

/// The levels and signs that the blocks above and to the left of a plane leave, by
/// units.
#[derive(Debug)]
pub struct LevelContext {
    /// The levels above.
    pub above_level: Vec<u8>,
    /// The signs of first coefficients above.
    pub above_dc: Vec<u8>,
    /// The levels to the left.
    pub left_level: Vec<u8>,
    /// The signs of first coefficients to the left.
    pub left_dc: Vec<u8>,
}

/// What the blocks above and to the left of a plane leave.
#[verifier::ext_equal]
pub struct Levels {
    /// The levels above.
    pub above_level: Seq<u8>,
    /// The signs of first coefficients above.
    pub above_dc: Seq<u8>,
    /// The levels to the left.
    pub left_level: Seq<u8>,
    /// The signs of first coefficients to the left.
    pub left_dc: Seq<u8>,
}

impl View for LevelContext {
    type V = Levels;

    open spec fn view(&self) -> Levels {
        Levels {
            above_level: self.above_level@,
            above_dc: self.above_dc@,
            left_level: self.left_level@,
            left_dc: self.left_dc@,
        }
    }
}

/// The greatest value of a span, as far as the row goes.
pub open spec fn span_max(row: Seq<u8>, at: int, n: int) -> int
    decreases n,
{
    if n <= 0 {
        0
    } else {
        max(
            span_max(row, at, n - 1),
            if at + n - 1 < row.len() {
                row[at + n - 1] as int
            } else {
                0
            },
        )
    }
}

/// The balance of signs over a span, as far as the row goes: 1 is negative, 2 is
/// positive.
pub open spec fn span_balance(row: Seq<u8>, at: int, n: int) -> int
    decreases n,
{
    if n <= 0 {
        0
    } else {
        span_balance(row, at, n - 1) + (if at + n - 1 < row.len() && row[at + n - 1] == 1 {
            -1int
        } else if at + n - 1 < row.len() && row[at + n - 1] == 2 {
            1
        } else {
            0
        })
    }
}

impl Levels {
    /// The context of whether a transform block has any coefficient.
    pub open spec fn zero_context(self, plane: int, x4: int, y4: int, size: TxSize, bw4: int, bh4: int) -> int {
        let (w4, h4) = (size.w() / 4, size.h() / 4);
        let top = span_max(self.above_level, x4, w4);
        let left = span_max(self.left_level, y4, h4);
        if plane == 0 {
            if 4 * bw4 == size.w() && 4 * bh4 == size.h() {
                0
            } else if top == 0 && left == 0 {
                1
            } else if top == 0 || left == 0 {
                if max(top, left) > 3 {
                    3
                } else {
                    2
                }
            } else if max(top, left) <= 3 {
                4
            } else if min(top, left) <= 3 {
                5
            } else {
                6
            }
        } else {
            let above: int = if top != 0 || span_max(self.above_dc, x4, w4) != 0 {
                1
            } else {
                0
            };
            let beside: int = if left != 0 || span_max(self.left_dc, y4, h4) != 0 {
                1
            } else {
                0
            };
            7 + above + beside + (if (4 * bw4) * (4 * bh4) > size.w() * size.h() {
                3int
            } else {
                0
            })
        }
    }

    /// The context of the sign of a transform block's first coefficient.
    pub open spec fn sign_context(self, x4: int, y4: int, size: TxSize) -> int {
        let balance = span_balance(self.above_dc, x4, size.w() / 4) + span_balance(self.left_dc, y4, size.h() / 4);
        if balance < 0 {
            1
        } else if balance > 0 {
            2
        } else {
            0
        }
    }

    /// What there is after a block leaves its level and its sign.
    pub open spec fn left_by(self, x4: int, y4: int, w4: int, h4: int, level: u8, sign: u8) -> Levels {
        Levels {
            above_level: spanned(self.above_level, x4, w4, level),
            above_dc: spanned(self.above_dc, x4, w4, sign),
            left_level: spanned(self.left_level, y4, h4, level),
            left_dc: spanned(self.left_dc, y4, h4, sign),
        }
    }

    /// What there is at the start of a row of superblocks.
    pub open spec fn at_row_start(self) -> Levels {
        Levels {
            left_level: spanned(self.left_level, 0, self.left_level.len() as int, 0),
            left_dc: spanned(self.left_dc, 0, self.left_dc.len() as int, 0),
            ..self
        }
    }
}

/// The greatest value of a span.
fn greatest(row: &Vec<u8>, at: usize, n: usize) -> (r: u8)
    requires
        at + n <= usize::MAX,
    ensures
        r == span_max(row@, at as int, n as int),
{
    let mut best: u8 = 0;
    let mut i: usize = 0;
    while i < n
        invariant
            i <= n,
            at + n <= usize::MAX,
            best == span_max(row@, at as int, i as int),
        decreases n - i,
    {
        if at + i < row.len() && row[at + i] > best {
            best = row[at + i];
        }
        i = i + 1;
    }
    best
}

/// The balance of signs over a span.
fn balance(row: &Vec<u8>, at: usize, n: usize) -> (r: i32)
    requires
        at + n <= usize::MAX,
        n <= 0x1000,
    ensures
        r == span_balance(row@, at as int, n as int),
        -n <= r <= n,
{
    let mut sum: i32 = 0;
    let mut i: usize = 0;
    while i < n
        invariant
            i <= n <= 0x1000,
            at + n <= usize::MAX,
            sum == span_balance(row@, at as int, i as int),
            -i <= sum <= i,
        decreases n - i,
    {
        if at + i < row.len() {
            if row[at + i] == 1 {
                sum = sum - 1;
            } else if row[at + i] == 2 {
                sum = sum + 1;
            }
        }
        i = i + 1;
    }
    sum
}

impl LevelContext {
    /// The context of whether a transform block has any coefficient.
    fn all_zero_ctx(&self, plane: usize, x4: usize, y4: usize, tx_size: TxSize, bw4: usize, bh4: usize) -> (r: usize)
        requires
            x4 <= 0x10000,
            y4 <= 0x10000,
            bw4 <= 32,
            bh4 <= 32,
        ensures
            r == self@.zero_context(plane as int, x4 as int, y4 as int, tx_size, bw4 as int, bh4 as int),
            r < 13,
    {
        let w = tx_size.width();
        let h = tx_size.height();
        let top = greatest(&self.above_level, x4, w / 4);
        let left = greatest(&self.left_level, y4, h / 4);
        if plane == 0 {
            let most = if top > left {
                top
            } else {
                left
            };
            let least = if top < left {
                top
            } else {
                left
            };
            if bw4 * 4 == w && bh4 * 4 == h {
                0
            } else if top == 0 && left == 0 {
                1
            } else if top == 0 || left == 0 {
                if most > 3 {
                    3
                } else {
                    2
                }
            } else if most <= 3 {
                4
            } else if least <= 3 {
                5
            } else {
                6
            }
        } else {
            let mut c: usize = 7;
            if top != 0 || greatest(&self.above_dc, x4, w / 4) != 0 {
                c = c + 1;
            }
            if left != 0 || greatest(&self.left_dc, y4, h / 4) != 0 {
                c = c + 1;
            }
            proof {
                let (a, b) = (4 * bw4 as int, 4 * bh4 as int);
                assert(0 <= a * b <= 128 * 128) by (nonlinear_arith)
                    requires
                        0 <= a <= 128,
                        0 <= b <= 128,
                ;
                let (d, e) = (w as int, h as int);
                assert(0 <= d * e <= 64 * 64) by (nonlinear_arith)
                    requires
                        0 <= d <= 64,
                        0 <= e <= 64,
                ;
            }
            if (4 * bw4) * (4 * bh4) > w * h {
                c = c + 3;
            }
            c
        }
    }

    /// The context of the sign of a transform block's first coefficient.
    fn dc_sign_ctx(&self, x4: usize, y4: usize, tx_size: TxSize) -> (r: usize)
        requires
            x4 <= 0x10000,
            y4 <= 0x10000,
        ensures
            r == self@.sign_context(x4 as int, y4 as int, tx_size),
            r < 3,
    {
        let sum = balance(&self.above_dc, x4, tx_size.width() / 4) + balance(&self.left_dc, y4, tx_size.height() / 4);
        if sum < 0 {
            1
        } else if sum > 0 {
            2
        } else {
            0
        }
    }

    /// Leave a block's level and sign on the units it covers.
    fn leave(&mut self, x4: usize, y4: usize, w4: usize, h4: usize, level: u8, sign: u8)
        requires
            x4 + w4 <= usize::MAX,
            y4 + h4 <= usize::MAX,
        ensures
            final(self)@ == old(self)@.left_by(x4 as int, y4 as int, w4 as int, h4 as int, level, sign),
    {
        span(&mut self.above_level, x4, w4, level);
        span(&mut self.above_dc, x4, w4, sign);
        span(&mut self.left_level, y4, h4, level);
        span(&mut self.left_dc, y4, h4, sign);
    }

    /// Forget what is to the left.
    fn reset_left(&mut self)
        ensures
            final(self)@ == old(self)@.at_row_start(),
    {
        let rows = self.left_level.len();
        span(&mut self.left_level, 0, rows, 0);
        let rows = self.left_dc.len();
        span(&mut self.left_dc, 0, rows, 0);
    }
}

/// A tile that is being decoded.
#[verifier::ext_equal]
pub struct Tile {
    /// The stream, with the mode distributions.
    pub st: Coded,
    /// The coefficient distributions.
    pub coeffs: Seq<Seq<u16>>,
    /// The transform depth distributions.
    pub depths: Seq<Seq<u16>>,
    /// The planes.
    pub planes: Seq<Samples>,
    /// What is remembered of blocks, by units.
    pub units: Seq<Unit>,
    /// The transform size of each unit, by planes.
    pub sizes: Seq<Seq<u8>>,
    /// Which places of the superblock are decoded, by planes.
    pub flags: Seq<Seq<u8>>,
    /// The levels and signs that blocks leave, by planes.
    pub levels: Seq<Levels>,
}

/// A tile with the flags of some of a transform block's units set, one after another.
pub open spec fn flagged(flags: Seq<u8>, side: int, x4: int, y4: int, w4: int, n: int) -> Seq<u8>
    decreases n,
{
    if n <= 0 {
        flags
    } else {
        let row = (y4 + (n - 1) / w4) % side;
        let column = (x4 + (n - 1) % w4) % side;
        flagged(flags, side, x4, y4, w4, n - 1).update((row + 1) * (side + 2) + (column + 1), 1)
    }
}

/// The index of a flag is one.
proof fn lemma_flag_index(side: int, row: int, column: int)
    requires
        0 <= row < side,
        0 <= column < side,
    ensures
        0 <= (row + 1) * (side + 2) + (column + 1) < (side + 2) * (side + 2),
        0 <= (row + 1) * (side + 2),
{
    assert(0 <= (row + 1) * (side + 2) && (row + 1) * (side + 2) + (column + 1) < (side + 2) * (side + 2))
        by (nonlinear_arith)
        requires
            0 <= row < side,
            0 <= column < side,
    ;
}

/// Set the flags of a transform block's units.
fn set_block_decoded(flags: &mut Vec<u8>, side: usize, x4: usize, y4: usize, w4: usize, h4: usize)
    requires
        side == 16 || side == 32,
        old(flags)@.len() == (side + 2) * (side + 2),
        x4 <= 0x10000,
        y4 <= 0x10000,
        1 <= w4 <= 16,
        1 <= h4 <= 16,
    ensures
        final(flags)@ == flagged(old(flags)@, side as int, x4 as int, y4 as int, w4 as int, w4 * h4),
        final(flags)@.len() == old(flags)@.len(),
{
    let ghost all = flags@;
    proof {
        assert(1 <= w4 * h4 <= 256) by (nonlinear_arith)
            requires
                1 <= w4 <= 16,
                1 <= h4 <= 16,
        ;
    }
    let mut n: usize = 0;
    while n < w4 * h4
        invariant
            n <= w4 * h4,
            w4 * h4 <= 256,
            1 <= w4 <= 16,
            side == 16 || side == 32,
            x4 <= 0x10000,
            y4 <= 0x10000,
            all.len() == (side + 2) * (side + 2),
            flags@.len() == all.len(),
            flags@ == flagged(all, side as int, x4 as int, y4 as int, w4 as int, n as int),
        decreases w4 * h4 - n,
    {
        proof {
            let (k, d) = (n as int, w4 as int);
            assert(0 <= k / d <= k && 0 <= k % d < d) by (nonlinear_arith)
                requires
                    k >= 0,
                    d > 0,
            ;
        }
        let row = (y4 + n / w4) % side;
        let column = (x4 + n % w4) % side;
        proof {
            lemma_flag_index(side as int, row as int, column as int);
            assert(flags@.len() == flags.len());
        }
        flags[(row + 1) * (side + 2) + (column + 1)] = 1;
        n = n + 1;
    }
}

/// Decodes a tile.
pub struct TileState<'a> {
    setup: Setup,
    quant: &'a QuantTables,
    stream: Stream<'a>,
    coeff: CoeffCdfs,
    depth: TxDepthCdfs,
    planes: Vec<Plane>,
    units: Vec<Unit>,
    lf_tx_sizes: Vec<Vec<u8>>,
    block_decoded: Vec<Vec<u8>>,
    ctx: Vec<LevelContext>,
}

/// What planes hold.
pub open spec fn plane_views(s: Seq<Plane>) -> Seq<Samples> {
    Seq::new(s.len(), |i: int| s[i]@)
}

/// What grids hold.
pub open spec fn grid_views(s: Seq<Vec<u8>>) -> Seq<Seq<u8>> {
    Seq::new(s.len(), |i: int| s[i]@)
}

/// What level contexts hold.
pub open spec fn level_views(s: Seq<LevelContext>) -> Seq<Levels> {
    Seq::new(s.len(), |i: int| s[i]@)
}

impl<'a> View for TileState<'a> {
    type V = Tile;

    closed spec fn view(&self) -> Tile {
        Tile {
            st: self.stream@,
            coeffs: self.coeff.table@,
            depths: self.depth.table@,
            planes: plane_views(self.planes@),
            units: self.units@,
            sizes: grid_views(self.lf_tx_sizes@),
            flags: grid_views(self.block_decoded@),
            levels: level_views(self.ctx@),
        }
    }
}

/// Whether the parts of a tile are as large as the frame says, and its samples and
/// colours are of the bit depth.
pub open spec fn shaped(s: Setup, t: Tile) -> bool {
    &&& t.planes.len() == s.num_planes
    &&& forall|i: int|
        0 <= i < t.planes.len() ==> (#[trigger] t.planes[i]).wf() && t.planes[i].width == 4 * s.mi_cols
            && t.planes[i].height == 4 * s.mi_rows && t.planes[i].fits(s.bit_depth as int)
    &&& s.fits(t.units)
    &&& palettes_fit(t.units, s.bit_depth as int)
    &&& t.sizes.len() == 3
    &&& forall|i: int| 0 <= i < 3 ==> (#[trigger] t.sizes[i]).len() == s.mi_cols * s.mi_rows
    &&& t.flags.len() == s.num_planes
    &&& forall|i: int|
        0 <= i < t.flags.len() ==> (#[trigger] t.flags[i]).len() == (s.sb_size4 + 2) * (s.sb_size4 + 2)
    &&& t.levels.len() == s.num_planes
}

impl<'a> TileState<'a> {
    /// What stays fixed.
    pub closed spec fn fixed(&self) -> Setup {
        self.setup
    }

    /// The quantiser tables.
    pub closed spec fn tables(&self) -> QuantTables {
        *self.quant
    }

    /// Every part is well formed.
    pub closed spec fn wf(&self) -> bool {
        &&& self.setup.wf()
        &&& self.stream.wf()
        &&& self.coeff.wf()
        &&& self.depth.wf()
        &&& shaped(self.setup, self@)
    }

    /// Whether this decodes the same tile as another does.
    pub open spec fn continues(&self, was: TileState<'a>) -> bool {
        &&& self.wf()
        &&& self.fixed() == was.fixed()
        &&& self.tables() == was.tables()
    }
}

/// The steps of a plane's quantiser.
pub open spec fn quant_steps(s: Setup, q: QuantTables, plane: int) -> (int, int) {
    let row = quant_row(s.bit_depth as int);
    (
        q.dc@[row]@[clamp(s.q_dc@[plane] as int, 0, 255)] as int,
        q.ac@[row]@[clamp(s.q_ac@[plane] as int, 0, 255)] as int,
    )
}

/// A transform block with its residual, and the tile after its coefficients; none
/// where the frame is lossy.
pub open spec fn with_residual(s: Setup, q: QuantTables, t: Tile, b: TxAt, pred: Seq<u16>) -> Option<(Seq<u16>, Tile)> {
    let levels = t.levels[b.plane];
    let (x4, y4) = (b.x / 4, b.y / 4);
    let m = coefficients(
        Coded { sym: t.st.sym, rows: t.coeffs },
        false,
        if b.plane > 0 {
            1
        } else {
            0
        },
        levels.zero_context(b.plane, x4, y4, b.size, b.bw4, b.bh4),
        levels.sign_context(x4, y4, b.size),
    );
    if b.skip {
        Some((pred, t))
    } else if !s.lossless || m is None {
        None
    } else {
        let (block, end) = m->0;
        let steps = quant_steps(s, q, b.plane);
        Some(
            (
                if block.eob > 0 {
                    rebuilt(
                        pred,
                        Inverse { size: b.size, ty: TxType::DctDct, lossless: true, depth: s.bit_depth as int },
                        dequantized_cells(block.quant, b.size, steps.0, steps.1, s.bit_depth as int),
                    )
                } else {
                    pred
                },
                Tile {
                    st: Coded { sym: end.sym, ..t.st },
                    coeffs: end.rows,
                    levels: t.levels.update(
                        b.plane,
                        levels.left_by(
                            x4,
                            y4,
                            b.size.w() / 4,
                            b.size.h() / 4,
                            block.cul_level as u8,
                            block.dc_category as u8,
                        ),
                    ),
                    ..t
                },
            ),
        )
    }
}

/// A tile with a transform block put in place.
pub open spec fn placed(s: Setup, t: Tile, b: TxAt, block: Seq<u16>) -> Tile {
    let (x4, y4) = (b.x / 4, b.y / 4);
    let (w4, h4) = (b.size.w() / 4, b.size.h() / 4);
    Tile {
        planes: t.planes.update(
            b.plane,
            painted(t.planes[b.plane], b.x, b.y, b.size.w(), b.size.h(), block),
        ),
        flags: t.flags.update(b.plane, flagged(t.flags[b.plane], s.sb_size4 as int, x4, y4, w4, w4 * h4)),
        sizes: t.sizes.update(
            b.plane,
            marked(t.sizes[b.plane], s.mi_cols as int, y4, x4, w4, h4, b.size.code() as u8),
        ),
        ..t
    }
}

/// The samples around a transform block.
pub open spec fn outlook(s: Setup, t: Tile, plane: int) -> Outlook {
    Outlook { p: t.planes[plane], flags: t.flags[plane], side: s.sb_size4 as int, depth: s.bit_depth as int }
}

/// A tile after a transform block; none where it has a residual in a lossy frame.
/// One that starts outside the frame is not coded.
#[verifier::opaque]
pub open spec fn block_decoded(s: Setup, q: QuantTables, t: Tile, b: TxAt) -> Option<Tile> {
    if b.x >= 4 * s.mi_cols || b.y >= 4 * s.mi_rows {
        Some(t)
    } else {
        let pred = prediction(outlook(s, t, b.plane), t.planes[0], s.edge_filter, b);
        match with_residual(s, q, t, b, pred) {
            None => None,
            Some((block, after)) => Some(placed(s, after, b, block)),
        }
    }
}

/// What is said of a block of a lossy frame that has a residual.
pub open spec fn residual_fault() -> Fault {
    unsupported("avif: the residual of a lossy frame is not decoded"@)
}

impl<'a> TileState<'a> {
    /// Read a transform block's residual and add it to its prediction.
    fn add_residual(&mut self, tb: &TxBlock<'_>, pred: Vec<u16>) -> (r: Outcome<Vec<u16>>)
        requires
            old(self).wf(),
            tb.plane < old(self).fixed().num_planes,
            tb.x < 4 * old(self).fixed().mi_cols,
            tb.y < 4 * old(self).fixed().mi_rows,
            tb.bw4 <= 32,
            tb.bh4 <= 32,
            old(self).fixed().lossless ==> tb.tx_size == TxSize::Tx4x4,
            pred@.len() == tb@.size.w() * tb@.size.h(),
            under(pred@, p2(old(self).fixed().bit_depth as int)),
        ensures
            ({
                let m = with_residual(old(self).fixed(), old(self).tables(), old(self)@, tb@, pred@);
                &&& r is Ok <==> m is Some
                &&& r is Ok ==> (r->Ok_0@, final(self)@) == m->0
            }),
            r is Ok ==> r->Ok_0@.len() == pred@.len(),
            r is Ok ==> under(r->Ok_0@, p2(old(self).fixed().bit_depth as int)),
            r is Err ==> r->Err_0.fault() == residual_fault(),
            final(self).continues(*old(self)),
    {
        if tb.skip {
            return Ok(pred);
        }
        if !self.setup.lossless {
            return Err(PixelsError::unsupported("avif: the residual of a lossy frame is not decoded"));
        }
        let ghost before = self@;
        let x4 = tb.x / 4;
        let y4 = tb.y / 4;
        let zero_ctx = self.ctx[tb.plane].all_zero_ctx(tb.plane, x4, y4, tb.tx_size, tb.bw4, tb.bh4);
        let sign_ctx = self.ctx[tb.plane].dc_sign_ctx(x4, y4, tb.tx_size);
        let ptype: usize = if tb.plane > 0 {
            1
        } else {
            0
        };
        assert(before.levels[tb.plane as int] == self.ctx@[tb.plane as int]@);
        let block = match decode_coeffs_4x4(&mut self.stream.dec, &mut self.coeff, ptype, zero_ctx, sign_ctx) {
            Ok(block) => block,
            Err(e) => {
                assert(false);
                return Err(e);
            },
        };
        let ctx = &mut self.ctx[tb.plane];
        ctx.leave(x4, y4, tb.tx_size.width() / 4, tb.tx_size.height() / 4, block.cul_level, block.dc_category);
        assert(level_views(self.ctx@) =~= before.levels.update(
            tb.plane as int,
            before.levels[tb.plane as int].left_by(
                x4 as int,
                y4 as int,
                tb@.size.w() / 4,
                tb@.size.h() / 4,
                block.cul_level,
                block.dc_category,
            ),
        ));
        if block.eob > 0 {
            let dc = self.quant.dc_q(self.setup.bit_depth, self.setup.q_dc[tb.plane]);
            let ac = self.quant.ac_q(self.setup.bit_depth, self.setup.q_ac[tb.plane]);
            proof {
                lemma_products_fit(block.quant@, dc as int, ac as int);
                lemma_rebuilt_fits(
                    pred@,
                    Inverse { size: tb.tx_size, ty: TxType::DctDct, lossless: true, depth: self.setup.bit_depth as int },
                    dequantized_cells(
                        block.quant@,
                        tb.tx_size,
                        dc as int,
                        ac as int,
                        self.setup.bit_depth as int,
                    ),
                );
            }
            Ok(
                rebuild(
                    pred.as_slice(),
                    &block.quant,
                    tb.tx_size,
                    TxType::DctDct,
                    dc,
                    ac,
                    true,
                    self.setup.bit_depth,
                ),
            )
        } else {
            Ok(pred)
        }
    }
}

/// Putting a block in place keeps the shape of a tile.
proof fn lemma_placed_shaped(s: Setup, t: Tile, b: TxAt, block: Seq<u16>)
    requires
        s.wf(),
        shaped(s, t),
        0 <= b.plane < s.num_planes,
        b.x >= 0,
        b.y >= 0,
        block.len() == b.size.w() * b.size.h(),
        under(block, p2(s.bit_depth as int)),
    ensures
        shaped(s, placed(s, t, b, block)),
{
    let p = placed(s, t, b, block);
    let (w4, h4) = (b.size.w() / 4, b.size.h() / 4);
    lemma_p2_values();
    assert(t.flags[b.plane].len() == (s.sb_size4 + 2) * (s.sb_size4 + 2));
    lemma_flagged_len(t.flags[b.plane], s.sb_size4 as int, b.x / 4, b.y / 4, w4, w4 * h4);
    assert(t.planes[b.plane].wf());
    lemma_painted_under(t.planes[b.plane], b.x, b.y, b.size.w(), b.size.h(), block, p2(s.bit_depth as int));
    assert forall|i: int| 0 <= i < p.planes.len() implies (#[trigger] p.planes[i]).wf() && p.planes[i].width == 4
        * s.mi_cols && p.planes[i].height == 4 * s.mi_rows && p.planes[i].fits(s.bit_depth as int) by {
        assert(t.planes[i].wf() && t.planes[i].width == 4 * s.mi_cols && t.planes[i].height == 4 * s.mi_rows
            && t.planes[i].fits(s.bit_depth as int));
    }
    assert forall|i: int| 0 <= i < 3 implies (#[trigger] p.sizes[i]).len() == s.mi_cols * s.mi_rows by {
        assert(t.sizes[i].len() == s.mi_cols * s.mi_rows);
    }
    assert forall|i: int| 0 <= i < p.flags.len() implies (#[trigger] p.flags[i]).len() == (s.sb_size4 + 2) * (
    s.sb_size4 + 2) by {
        assert(t.flags[i].len() == (s.sb_size4 + 2) * (s.sb_size4 + 2));
    }
}

/// Setting flags keeps how many there are.
proof fn lemma_flagged_len(flags: Seq<u8>, side: int, x4: int, y4: int, w4: int, n: int)
    requires
        side > 0,
        x4 >= 0,
        y4 >= 0,
        w4 > 0,
        flags.len() == (side + 2) * (side + 2),
    ensures
        flagged(flags, side, x4, y4, w4, n).len() == flags.len(),
    decreases n,
{
    if n > 0 {
        lemma_flagged_len(flags, side, x4, y4, w4, n - 1);
        let k = n - 1;
        let (row, column) = ((y4 + k / w4) % side, (x4 + k % w4) % side);
        assert(0 <= row < side && 0 <= column < side) by (nonlinear_arith)
            requires
                side > 0,
                row == (y4 + k / w4) % side,
                column == (x4 + k % w4) % side,
        ;
        lemma_flag_index(side, row, column);
    }
}

impl<'a> TileState<'a> {
    /// Put a transform block in place.
    fn place(&mut self, tb: &TxBlock<'_>, block: &Vec<u16>)
        requires
            old(self).wf(),
            tb.plane < old(self).fixed().num_planes,
            tb.x < 4 * old(self).fixed().mi_cols,
            tb.y < 4 * old(self).fixed().mi_rows,
            block@.len() == tb@.size.w() * tb@.size.h(),
            under(block@, p2(old(self).fixed().bit_depth as int)),
        ensures
            final(self)@ == placed(old(self).fixed(), old(self)@, tb@, block@),
            final(self).continues(*old(self)),
    {
        let ghost before = self@;
        let ghost s = self.setup;
        let plane = tb.plane;
        let w = tb.tx_size.width();
        let h = tb.tx_size.height();
        let x4 = tb.x / 4;
        let y4 = tb.y / 4;
        proof {
            lemma_placed_shaped(s, before, tb@, block@);
            assert(before.planes[plane as int].wf());
            assert(before.flags[plane as int].len() == (s.sb_size4 + 2) * (s.sb_size4 + 2));
            assert(before.sizes[plane as int].len() == s.mi_cols * s.mi_rows);
        }
        let p = &mut self.planes[plane];
        paint(p, tb.x, tb.y, w, h, block);
        let side = self.setup.sb_size4;
        let flags = &mut self.block_decoded[plane];
        set_block_decoded(flags, side, x4, y4, w / 4, h / 4);
        let (cols, rows) = (self.setup.mi_cols, self.setup.mi_rows);
        let grid = &mut self.lf_tx_sizes[plane];
        mark(grid, cols, rows, y4, x4, w / 4, h / 4, tb.tx_size.index() as u8);
        proof {
            let want = placed(s, before, tb@, block@);
            assert(plane_views(self.planes@) =~= want.planes);
            assert(grid_views(self.block_decoded@) =~= want.flags);
            assert(grid_views(self.lf_tx_sizes@) =~= want.sizes);
            assert(self@ =~= want);
        }
    }

    /// Decode a transform block.
    fn transform_block(&mut self, tb: &TxBlock<'_>) -> (r: Outcome<()>)
        requires
            old(self).wf(),
            tb.plane < old(self).fixed().num_planes,
            tb.bw4 <= 32,
            tb.bh4 <= 32,
            old(self).fixed().lossless ==> tb.tx_size == TxSize::Tx4x4,
            tb.x < 4 * old(self).fixed().mi_cols && tb.y < 4 * old(self).fixed().mi_rows ==> tb.wf(
                old(self)@.planes[tb.plane as int],
            ),
            tb.palette matches Some(v) ==> under(v.colours@, p2(old(self).fixed().bit_depth as int)),
        ensures
            ({
                let m = block_decoded(old(self).fixed(), old(self).tables(), old(self)@, tb@);
                &&& r is Ok <==> m is Some
                &&& r is Ok ==> final(self)@ == m->0
            }),
            r is Err ==> r->Err_0.fault() == residual_fault(),
            final(self).continues(*old(self)),
    {
        proof {
            reveal(block_decoded);
        }
        if tb.x >= 4 * self.setup.mi_cols || tb.y >= 4 * self.setup.mi_rows {
            return Ok(());
        }
        proof {
            assert(self@.planes[tb.plane as int].wf());
            assert(self@.planes[0].wf());
            lemma_prediction_fits(
                outlook(self.setup, self@, tb.plane as int),
                self@.planes[0],
                self.setup.edge_filter,
                tb@,
            );
        }
        let pred = predict(
            &self.planes[tb.plane],
            &self.planes[0],
            &self.block_decoded[tb.plane],
            &self.setup,
            tb,
        )?;
        let block = self.add_residual(tb, pred)?;
        self.place(tb, &block);
        Ok(())
    }
}

/// A block whose modes are known.
#[verifier::ext_equal]
pub struct BlockAt {
    /// Its row in units.
    pub r: int,
    /// Its column in units.
    pub c: int,
    /// Its width in units.
    pub bw4: int,
    /// Its height in units.
    pub bh4: int,
    /// What the stream says about it.
    pub info: ModeInfoAt,
    /// The size of its luma transforms.
    pub luma: TxSize,
}

/// The size of chroma transforms: the largest that fits the block, with sides of at
/// most 32 samples.
pub open spec fn chroma_size(block: int) -> TxSize {
    match largest(block) {
        TxSize::Tx64x64 => TxSize::Tx32x32,
        TxSize::Tx32x64 => TxSize::Tx32x32,
        TxSize::Tx64x32 => TxSize::Tx32x32,
        TxSize::Tx16x64 => TxSize::Tx16x32,
        TxSize::Tx64x16 => TxSize::Tx32x16,
        other => other,
    }
}

/// The size of chroma transforms of a block size.
pub fn chroma_tx_size(block: usize) -> (r: TxSize)
    ensures
        r == chroma_size(block as int),
{
    match max_tx_size_rect(block) {
        TxSize::Tx64x64 => TxSize::Tx32x32,
        TxSize::Tx32x64 => TxSize::Tx32x32,
        TxSize::Tx64x32 => TxSize::Tx32x32,
        TxSize::Tx16x64 => TxSize::Tx16x32,
        TxSize::Tx64x16 => TxSize::Tx32x16,
        other => other,
    }
}

/// Whether a mode is one of the blended ones.
pub open spec fn is_smooth(mode: u8) -> bool {
    9 <= mode <= 11
}

/// Whether the block above or to the left is predicted smoothly.
pub open spec fn smooth_beside(s: Setup, units: Seq<Unit>, r: int, c: int, plane: int) -> bool {
    ||| r > 0 && is_smooth(
        if plane == 0 {
            s.unit(units, r - 1, c).y_mode
        } else {
            s.unit(units, r - 1, c).uv_mode
        },
    )
    ||| c > 0 && is_smooth(
        if plane == 0 {
            s.unit(units, r, c - 1).y_mode
        } else {
            s.unit(units, r, c - 1).uv_mode
        },
    )
}

/// The palette of a plane of a block, where there is one.
pub open spec fn plane_palette(b: BlockAt, plane: int) -> Option<PaletteAt> {
    let p = b.info.palettes;
    if plane == 0 && p.size_y > 0 {
        Some(
            PaletteAt {
                map: b.info.map_y,
                colours: p.colours_y,
                block_w: 4 * b.bw4,
                base_x: 4 * b.c,
                base_y: 4 * b.r,
            },
        )
    } else if plane != 0 && p.size_uv > 0 {
        Some(
            PaletteAt {
                map: b.info.map_uv,
                colours: if plane == 1 {
                    p.colours_u
                } else {
                    p.colours_v
                },
                block_w: 4 * b.bw4,
                base_x: 4 * b.c,
                base_y: 4 * b.r,
            },
        )
    } else {
        None
    }
}

/// The size of a plane's transforms.
pub open spec fn plane_size(s: Setup, b: BlockAt, plane: int) -> TxSize {
    if s.lossless {
        TxSize::Tx4x4
    } else if plane == 0 {
        b.luma
    } else {
        chroma_size(size_index(b.bw4, b.bh4))
    }
}

/// A transform block of a block, `tx` and `ty` units from its corner.
pub open spec fn tx_at(s: Setup, b: BlockAt, plane: int, smooth: bool, tx: int, ty: int) -> TxAt {
    TxAt {
        plane,
        x: 4 * b.c + 4 * tx,
        y: 4 * b.r + 4 * ty,
        size: plane_size(s, b, plane),
        mode: if plane == 0 {
            b.info.y_mode
        } else if b.info.cfl is Some {
            0
        } else {
            b.info.uv_mode
        },
        angle_delta: if plane == 0 {
            b.info.y_delta
        } else {
            b.info.uv_delta
        },
        have_left: b.c > 0 || tx > 0,
        have_above: b.r > 0 || ty > 0,
        smooth,
        filter_intra: if plane == 0 {
            b.info.filter_intra
        } else {
            None
        },
        cfl_alpha: match b.info.cfl {
            Some((u, v)) => if plane == 1 {
                Some(u)
            } else if plane == 2 {
                Some(v)
            } else {
                None
            },
            None => None,
        },
        palette: plane_palette(b, plane),
        skip: b.info.skip,
        bw4: b.bw4,
        bh4: b.bh4,
    }
}

/// A tile after the transform blocks of a plane of a block, from one on, row by row.
pub open spec fn plane_decoded(
    s: Setup,
    q: QuantTables,
    t: Tile,
    b: BlockAt,
    plane: int,
    smooth: bool,
    tx: int,
    ty: int,
) -> Option<Tile>
    decreases max(b.bh4 - ty, 0), max(b.bw4 - tx, 0),
{
    let size = plane_size(s, b, plane);
    if ty >= b.bh4 {
        Some(t)
    } else if tx >= b.bw4 {
        plane_decoded(s, q, t, b, plane, smooth, 0, ty + max(size.h() / 4, 1))
    } else {
        match block_decoded(s, q, t, tx_at(s, b, plane, smooth, tx, ty)) {
            None => None,
            Some(after) => plane_decoded(s, q, after, b, plane, smooth, tx + max(size.w() / 4, 1), ty),
        }
    }
}

/// A tile after the planes of a block, from one on.
pub open spec fn planes_decoded(s: Setup, q: QuantTables, t: Tile, b: BlockAt, plane: int) -> Option<Tile>
    decreases s.num_planes - plane,
{
    if plane >= s.num_planes {
        Some(t)
    } else {
        match plane_decoded(s, q, t, b, plane, smooth_beside(s, t.units, b.r, b.c, plane), 0, 0) {
            None => None,
            Some(after) => planes_decoded(s, q, after, b, plane + 1),
        }
    }
}

/// The palette of a plane of a block, where there is one.
fn palette_view_for<'b>(info: &'b ModeInfo, plane: usize, block_w: usize, base_x: usize, base_y: usize) -> (r: Option<
    PaletteView<'b>,
>)
    ensures
        palette_at(r) == (if plane == 0 && info.palettes.size_y > 0 {
            Some(
                PaletteAt {
                    map: info.map_y@,
                    colours: info.palettes.colours_y@,
                    block_w: block_w as int,
                    base_x: base_x as int,
                    base_y: base_y as int,
                },
            )
        } else if plane != 0 && info.palettes.size_uv > 0 {
            Some(
                PaletteAt {
                    map: info.map_uv@,
                    colours: if plane == 1 {
                        info.palettes.colours_u@
                    } else {
                        info.palettes.colours_v@
                    },
                    block_w: block_w as int,
                    base_x: base_x as int,
                    base_y: base_y as int,
                },
            )
        } else {
            None
        }),
{
    if plane == 0 {
        if info.palettes.size_y > 0 {
            Some(PaletteView { map: &info.map_y, colours: &info.palettes.colours_y, block_w, base_x, base_y })
        } else {
            None
        }
    } else if info.palettes.size_uv > 0 {
        if plane == 1 {
            Some(PaletteView { map: &info.map_uv, colours: &info.palettes.colours_u, block_w, base_x, base_y })
        } else {
            Some(PaletteView { map: &info.map_uv, colours: &info.palettes.colours_v, block_w, base_x, base_y })
        }
    } else {
        None
    }
}

impl<'a> TileState<'a> {
    /// Whether the block above or to the left is predicted smoothly.
    fn filter_type(&self, r: usize, c: usize, plane: usize) -> (res: bool)
        requires
            self.wf(),
            self.fixed().has(r as int, c as int),
        ensures
            res == smooth_beside(self.fixed(), self@.units, r as int, c as int, plane as int),
    {
        let mut smooth = false;
        if r > 0 {
            let u = self.setup.unit_at(&self.units, r - 1, c);
            let mode = if plane == 0 {
                u.y_mode
            } else {
                u.uv_mode
            };
            if 9 <= mode && mode <= 11 {
                smooth = true;
            }
        }
        if c > 0 {
            let u = self.setup.unit_at(&self.units, r, c - 1);
            let mode = if plane == 0 {
                u.y_mode
            } else {
                u.uv_mode
            };
            if 9 <= mode && mode <= 11 {
                smooth = true;
            }
        }
        smooth
    }

    /// A transform block of a block.
    fn tx_block<'b>(
        &self,
        info: &'b ModeInfo,
        r: usize,
        c: usize,
        bw4: usize,
        bh4: usize,
        tx_size: TxSize,
        plane: usize,
        smooth: bool,
        tx: usize,
        ty: usize,
        Ghost(b): Ghost<BlockAt>,
    ) -> (res: TxBlock<'b>)
        requires
            self.wf(),
            info.wf(bw4 as int, bh4 as int),
            info.palettes@.fits(self.fixed().bit_depth as int),
            self.fixed().has(r as int, c as int),
            plane < self.fixed().num_planes,
            1 <= bw4 <= 32,
            1 <= bh4 <= 32,
            tx < bw4,
            ty < bh4,
            b.r == r,
            b.c == c,
            b.bw4 == bw4,
            b.bh4 == bh4,
            b.info == info@,
            tx_size == plane_size(self.fixed(), b, plane as int),
        ensures
            res@ == tx_at(self.fixed(), b, plane as int, smooth, tx as int, ty as int),
            res.x < 4 * self.fixed().mi_cols && res.y < 4 * self.fixed().mi_rows ==> res.wf(
                self@.planes[plane as int],
            ),
            res.palette matches Some(v) ==> under(v.colours@, p2(self.fixed().bit_depth as int)),
    {
        let palette = palette_view_for(info, plane, 4 * bw4, 4 * c, 4 * r);
        let mode = if plane == 0 {
            info.y_mode
        } else if info.cfl.is_some() {
            0
        } else {
            info.uv_mode
        };
        let cfl_alpha = match info.cfl {
            Some((u, v)) => if plane == 1 {
                Some(u)
            } else if plane == 2 {
                Some(v)
            } else {
                None
            },
            None => None,
        };
        let res = TxBlock {
            plane,
            x: 4 * c + 4 * tx,
            y: 4 * r + 4 * ty,
            tx_size,
            mode,
            angle_delta: if plane == 0 {
                info.y_delta
            } else {
                info.uv_delta
            },
            have_left: c > 0 || tx > 0,
            have_above: r > 0 || ty > 0,
            smooth,
            filter_intra: if plane == 0 {
                info.filter_intra
            } else {
                None
            },
            cfl_alpha,
            palette,
            skip: info.skip,
            bw4,
            bh4,
        };
        proof {
            assert(self@.planes[plane as int].wf());
            if info.palettes.size_y > 0 || info.palettes.size_uv > 0 {
                let (u, v) = (4 * bw4 as int, 4 * bh4 as int);
                assert(0 <= u * v <= 4096) by (nonlinear_arith)
                    requires
                        0 <= u <= 64,
                        0 <= v <= 64,
                ;
            }
            assert(res@ =~= tx_at(self.fixed(), b, plane as int, smooth, tx as int, ty as int));
        }
        res
    }

    /// Decode the transform blocks of a plane of a block.
    fn decode_plane(
        &mut self,
        info: &ModeInfo,
        r: usize,
        c: usize,
        bw4: usize,
        bh4: usize,
        tx_size: TxSize,
        plane: usize,
        Ghost(b): Ghost<BlockAt>,
    ) -> (res: Outcome<()>)
        requires
            old(self).wf(),
            info.wf(bw4 as int, bh4 as int),
            info.palettes@.fits(old(self).fixed().bit_depth as int),
            old(self).fixed().has(r as int, c as int),
            plane < old(self).fixed().num_planes,
            1 <= bw4 <= 32,
            1 <= bh4 <= 32,
            b.r == r,
            b.c == c,
            b.bw4 == bw4,
            b.bh4 == bh4,
            b.info == info@,
            tx_size == plane_size(old(self).fixed(), b, plane as int),
        ensures
            ({
                let s = old(self).fixed();
                let m = plane_decoded(
                    s,
                    old(self).tables(),
                    old(self)@,
                    b,
                    plane as int,
                    smooth_beside(s, old(self)@.units, r as int, c as int, plane as int),
                    0,
                    0,
                );
                &&& res is Ok <==> m is Some
                &&& res is Ok ==> final(self)@ == m->0
            }),
            res is Err ==> res->Err_0.fault() == residual_fault(),
            final(self).continues(*old(self)),
    {
        let ghost (s, q, t0) = (self.setup, *self.quant, self@);
        let smooth = self.filter_type(r, c, plane);
        let step_x = tx_size.width() / 4;
        let step_y = tx_size.height() / 4;
        let ghost whole = plane_decoded(s, q, t0, b, plane as int, smooth, 0, 0);
        let mut ty: usize = 0;
        while ty < bh4
            invariant
                self.continues(*old(self)),
                self.fixed() == s,
                self.tables() == q,
                info.wf(bw4 as int, bh4 as int),
                info.palettes@.fits(s.bit_depth as int),
                s.has(r as int, c as int),
                plane < s.num_planes,
                1 <= bw4 <= 32,
                1 <= bh4 <= 32,
                ty <= 64,
                b.r == r,
                b.c == c,
                b.bw4 == bw4,
                b.bh4 == bh4,
                b.info == info@,
                tx_size == plane_size(s, b, plane as int),
                1 <= step_x <= 16,
                1 <= step_y <= 16,
                step_x == tx_size.w() / 4,
                step_y == tx_size.h() / 4,
                whole == plane_decoded(s, q, self@, b, plane as int, smooth, 0, ty as int),
                whole == plane_decoded(
                    old(self).fixed(),
                    old(self).tables(),
                    old(self)@,
                    b,
                    plane as int,
                    smooth_beside(old(self).fixed(), old(self)@.units, r as int, c as int, plane as int),
                    0,
                    0,
                ),
            decreases bh4 + 64 - ty,
        {
            let mut tx: usize = 0;
            while tx < bw4
                invariant
                    self.continues(*old(self)),
                    self.fixed() == s,
                    self.tables() == q,
                    info.wf(bw4 as int, bh4 as int),
                    info.palettes@.fits(s.bit_depth as int),
                    s.has(r as int, c as int),
                    plane < s.num_planes,
                    1 <= bw4 <= 32,
                    1 <= bh4 <= 32,
                    ty < bh4,
                    tx <= 64,
                    b.r == r,
                    b.c == c,
                    b.bw4 == bw4,
                    b.bh4 == bh4,
                    b.info == info@,
                    tx_size == plane_size(s, b, plane as int),
                    1 <= step_x <= 16,
                    step_x == tx_size.w() / 4,
                    whole == plane_decoded(s, q, self@, b, plane as int, smooth, tx as int, ty as int),
                    whole == plane_decoded(
                        old(self).fixed(),
                        old(self).tables(),
                        old(self)@,
                        b,
                        plane as int,
                        smooth_beside(old(self).fixed(), old(self)@.units, r as int, c as int, plane as int),
                        0,
                        0,
                    ),
                decreases bw4 + 64 - tx,
            {
                let tb = self.tx_block(info, r, c, bw4, bh4, tx_size, plane, smooth, tx, ty, Ghost(b));
                self.transform_block(&tb)?;
                tx = tx + step_x;
            }
            ty = ty + step_y;
        }
        Ok(())
    }

    /// Decode the residual of a block, plane by plane.
    fn residual(
        &mut self,
        info: &ModeInfo,
        r: usize,
        c: usize,
        bw4: usize,
        bh4: usize,
        luma: TxSize,
    ) -> (res: Outcome<()>)
        requires
            old(self).wf(),
            info.wf(bw4 as int, bh4 as int),
            info.palettes@.fits(old(self).fixed().bit_depth as int),
            old(self).fixed().has(r as int, c as int),
            1 <= bw4 <= 32,
            1 <= bh4 <= 32,
        ensures
            ({
                let b = BlockAt { r: r as int, c: c as int, bw4: bw4 as int, bh4: bh4 as int, info: info@, luma };
                let m = planes_decoded(old(self).fixed(), old(self).tables(), old(self)@, b, 0);
                &&& res is Ok <==> m is Some
                &&& res is Ok ==> final(self)@ == m->0
            }),
            res is Err ==> res->Err_0.fault() == residual_fault(),
            final(self).continues(*old(self)),
    {
        let ghost (s, q) = (self.setup, *self.quant);
        let ghost b = BlockAt { r: r as int, c: c as int, bw4: bw4 as int, bh4: bh4 as int, info: info@, luma };
        let ghost whole = planes_decoded(s, q, self@, b, 0);
        let mut plane: usize = 0;
        while plane < self.setup.num_planes
            invariant
                self.continues(*old(self)),
                self.fixed() == s,
                self.tables() == q,
                info.wf(bw4 as int, bh4 as int),
                info.palettes@.fits(s.bit_depth as int),
                s.has(r as int, c as int),
                plane <= s.num_planes,
                1 <= bw4 <= 32,
                1 <= bh4 <= 32,
                b == (BlockAt { r: r as int, c: c as int, bw4: bw4 as int, bh4: bh4 as int, info: info@, luma }),
                whole == planes_decoded(s, q, self@, b, plane as int),
                whole == planes_decoded(old(self).fixed(), old(self).tables(), old(self)@, b, 0),
            decreases s.num_planes - plane,
        {
            let tx_size = if self.setup.lossless {
                TxSize::Tx4x4
            } else if plane == 0 {
                luma
            } else {
                chroma_tx_size(block_size_index(bw4, bh4))
            };
            self.decode_plane(info, r, c, bw4, bh4, tx_size, plane, Ghost(b))?;
            plane = plane + 1;
        }
        Ok(())
    }
}

/// Eight colours as an array.
pub open spec fn eight(s: Seq<u16>) -> [u16; 8] {
    [s[0], s[1], s[2], s[3], s[4], s[5], s[6], s[7]]
}

/// What a block leaves on its units, with a transform size.
pub open spec fn unit_of(info: ModeInfoAt, bw4: int, bh4: int, tx_size: u8) -> Unit {
    Unit {
        y_mode: info.y_mode as u8,
        uv_mode: info.uv_mode as u8,
        skip: info.skip,
        wide: log2(bw4) as u8,
        high: log2(bh4) as u8,
        tx_size,
        size_y: info.palettes.size_y as u8,
        size_uv: info.palettes.size_uv as u8,
        colours_y: eight(info.palettes.colours_y),
        colours_uv: eight(info.palettes.colours_u),
    }
}

/// What decides the transform size of a block.
pub open spec fn tx_params(s: Setup, units: Seq<Unit>, r: int, c: int, bw4: int, bh4: int) -> TxSizeParams {
    TxSizeParams {
        block: size_index(bw4, bh4) as usize,
        tx_mode_select: s.select,
        lossless: s.lossless,
        allow_select: true,
        above_w: (if r > 0 {
            size_of(s.unit(units, r - 1, c).tx_size as int).w()
        } else {
            0
        }) as usize,
        left_h: (if c > 0 {
            size_of(s.unit(units, r, c - 1).tx_size as int).h()
        } else {
            0
        }) as usize,
    }
}

/// A block's modes and its transform size, and the tile after them. A block without
/// a residual leaves no levels.
#[verifier::opaque]
pub open spec fn block_read(s: Setup, t: Tile, r: int, c: int, bw4: int, bh4: int) -> (BlockAt, Tile) {
    let (info, st) = mode_info(s, t.units, t.st, r, c, bw4, bh4);
    let first = recorded(t.units, s.mi_cols as int, r, c, bw4, bh4, unit_of(info, bw4, bh4, 0), false);
    let (luma, sym, depths) = block_tx_size(st.sym, t.depths, false, tx_params(s, first, r, c, bw4, bh4));
    (
        BlockAt { r, c, bw4, bh4, info, luma },
        Tile {
            st: Coded { sym, ..st },
            depths,
            units: recorded(
                first,
                s.mi_cols as int,
                r,
                c,
                bw4,
                bh4,
                unit_of(info, bw4, bh4, luma.code() as u8),
                true,
            ),
            levels: if info.skip {
                Seq::new(t.levels.len(), |i: int| t.levels[i].left_by(c, r, bw4, bh4, 0, 0))
            } else {
                t.levels
            },
            ..t
        },
    )
}

/// A tile after a block; none where it has a residual in a lossy frame.
pub open spec fn coding_block(s: Setup, q: QuantTables, t: Tile, r: int, c: int, bw4: int, bh4: int) -> Option<Tile> {
    let (b, after) = block_read(s, t, r, c, bw4, bh4);
    planes_decoded(s, q, after, b, 0)
}

/// The width of a transform with an index.
fn width_of(index: u8) -> (r: usize)
    ensures
        r == size_of(index as int).w(),
{
    let t = TxSize::from_index(index as usize);
    proof {
        lemma_sized(t);
    }
    t.width()
}

/// The height of a transform with an index.
fn height_of(index: u8) -> (r: usize)
    ensures
        r == size_of(index as int).h(),
{
    let t = TxSize::from_index(index as usize);
    proof {
        lemma_sized(t);
    }
    t.height()
}

/// Recording a block keeps palettes no longer than they may be.
proof fn lemma_recorded_fits(
    units: Seq<Unit>,
    cols: int,
    r: int,
    c: int,
    wide: int,
    high: int,
    new: Unit,
    tx_only: bool,
    depth: int,
)
    requires
        palettes_fit(units, depth),
        unit_fits(new, depth),
    ensures
        palettes_fit(recorded(units, cols, r, c, wide, high, new, tx_only), depth),
{
    let after = recorded(units, cols, r, c, wide, high, new, tx_only);
    assert forall|k: int| 0 <= k < after.len() implies unit_fits(#[trigger] after[k], depth) by {
        assert(unit_fits(units[k], depth));
    }
}

impl<'a> TileState<'a> {
    /// Read a block's transform size and record it.
    fn read_block_tx_size(&mut self, r: usize, c: usize, bw4: usize, bh4: usize) -> (res: Outcome<TxSize>)
        requires
            old(self).wf(),
            old(self).fixed().has(r as int, c as int),
            1 <= bw4 <= 32,
            1 <= bh4 <= 32,
        ensures
            res is Ok,
            ({
                let s = old(self).fixed();
                let t = old(self)@;
                let (luma, sym, depths) = block_tx_size(
                    t.st.sym,
                    t.depths,
                    false,
                    tx_params(s, t.units, r as int, c as int, bw4 as int, bh4 as int),
                );
                &&& res->Ok_0 == luma
                &&& final(self)@ == (Tile { st: Coded { sym, ..t.st }, depths, ..t })
            }),
            final(self).continues(*old(self)),
    {
        let above_w = if r > 0 {
            width_of(self.setup.unit_at(&self.units, r - 1, c).tx_size)
        } else {
            0
        };
        let left_h = if c > 0 {
            height_of(self.setup.unit_at(&self.units, r, c - 1).tx_size)
        } else {
            0
        };
        let params = TxSizeParams {
            block: block_size_index(bw4, bh4),
            tx_mode_select: self.setup.select,
            lossless: self.setup.lossless,
            allow_select: true,
            above_w,
            left_h,
        };
        let ghost before = self@;
        let tx = read_tx_size(&mut self.stream.dec, &mut self.depth, &params)?;
        assert(self@ =~= (Tile { st: Coded { sym: self@.st.sym, ..before.st }, depths: self@.depths, ..before }));
        Ok(tx)
    }

    /// Forget the levels on the units of a block, on every plane.
    fn reset_block_context(&mut self, r: usize, c: usize, bw4: usize, bh4: usize)
        requires
            old(self).wf(),
            old(self).fixed().has(r as int, c as int),
            1 <= bw4 <= 32,
            1 <= bh4 <= 32,
        ensures
            final(self)@ == (Tile {
                levels: Seq::new(
                    old(self)@.levels.len(),
                    |i: int| old(self)@.levels[i].left_by(c as int, r as int, bw4 as int, bh4 as int, 0, 0),
                ),
                ..old(self)@
            }),
            final(self).continues(*old(self)),
    {
        let ghost before = self@;
        let mut i: usize = 0;
        while i < self.ctx.len()
            invariant
                i <= self.ctx@.len(),
                self.continues(*old(self)),
                before == old(self)@,
                self.fixed().wf(),
                self.fixed().has(r as int, c as int),
                1 <= bw4 <= 32,
                1 <= bh4 <= 32,
                self.ctx@.len() == before.levels.len(),
                forall|k: int|
                    0 <= k < self.ctx@.len() ==> (#[trigger] self.ctx@[k])@ == if k < i {
                        before.levels[k].left_by(c as int, r as int, bw4 as int, bh4 as int, 0, 0)
                    } else {
                        before.levels[k]
                    },
                self@ == (Tile { levels: level_views(self.ctx@), ..before }),
            decreases self.ctx@.len() - i,
        {
            let ghost then = self.ctx@;
            let ctx = &mut self.ctx[i];
            ctx.leave(c, r, bw4, bh4, 0, 0);
            assert(self@ =~= (Tile { levels: level_views(self.ctx@), ..before }));
            assert forall|k: int| 0 <= k < self.ctx@.len() implies (#[trigger] self.ctx@[k])@ == (if k < i + 1 {
                before.levels[k].left_by(c as int, r as int, bw4 as int, bh4 as int, 0, 0)
            } else {
                before.levels[k]
            }) by {
                if k != i {
                    assert(self.ctx@[k] == then[k]);
                }
            }
            i = i + 1;
        }
        assert(level_views(self.ctx@) =~= Seq::new(
            before.levels.len(),
            |i: int| before.levels[i].left_by(c as int, r as int, bw4 as int, bh4 as int, 0, 0),
        ));
    }
}

impl<'a> TileState<'a> {
    /// Decode a block.
    fn decode_block(&mut self, r: usize, c: usize, bw4: usize, bh4: usize) -> (res: Outcome<()>)
        requires
            old(self).wf(),
            old(self).fixed().has(r as int, c as int),
            1 <= bw4 <= 32,
            1 <= bh4 <= 32,
        ensures
            ({
                let m = coding_block(
                    old(self).fixed(),
                    old(self).tables(),
                    old(self)@,
                    r as int,
                    c as int,
                    bw4 as int,
                    bh4 as int,
                );
                &&& res is Ok <==> m is Some
                &&& res is Ok ==> final(self)@ == m->0
            }),
            res is Err ==> res->Err_0.fault() == residual_fault(),
            final(self).continues(*old(self)),
    {
        let ghost (s, t0) = (self.setup, self@);
        let info = read_mode_info(&self.setup, &self.units, &mut self.stream, r, c, bw4, bh4)?;
        let mut unit = Unit {
            y_mode: info.y_mode as u8,
            uv_mode: info.uv_mode as u8,
            skip: info.skip,
            wide: floor_log2_usize(bw4) as u8,
            high: floor_log2_usize(bh4) as u8,
            tx_size: 0,
            size_y: info.palettes.size_y as u8,
            size_uv: info.palettes.size_uv as u8,
            colours_y: info.palettes.colours_y,
            colours_uv: info.palettes.colours_u,
        };
        proof {
            lemma_short_log(bw4 as int);
            lemma_short_log(bh4 as int);
            assert(unit.colours_y@ =~= eight(info@.palettes.colours_y)@);
            assert(unit.colours_uv@ =~= eight(info@.palettes.colours_u)@);
            let want = unit_of(info@, bw4 as int, bh4 as int, 0);
            assert(unit.colours_y == want.colours_y);
            assert(unit.colours_uv == want.colours_uv);
            assert(unit.wide == want.wide && unit.high == want.high);
            assert(unit.y_mode == want.y_mode && unit.uv_mode == want.uv_mode);
            assert(unit.size_y == want.size_y && unit.size_uv == want.size_uv);
            assert(unit == want);
            lemma_recorded_fits(
                t0.units,
                s.mi_cols as int,
                r as int,
                c as int,
                bw4 as int,
                bh4 as int,
                unit,
                false,
                s.bit_depth as int,
            );
        }
        let (cols, rows) = (self.setup.mi_cols, self.setup.mi_rows);
        record(&mut self.units, cols, rows, r, c, bw4, bh4, &unit, false);
        let ghost t1 = self@;
        proof {
            assert(t1 =~= (Tile { st: t1.st, units: t1.units, ..t0 }));
        }
        let luma = self.read_block_tx_size(r, c, bw4, bh4)?;
        let ghost t2 = self@;
        unit.tx_size = luma.index() as u8;
        proof {
            assert(unit == unit_of(info@, bw4 as int, bh4 as int, luma.code() as u8));
            lemma_recorded_fits(
                t2.units,
                s.mi_cols as int,
                r as int,
                c as int,
                bw4 as int,
                bh4 as int,
                unit,
                true,
                s.bit_depth as int,
            );
        }
        record(&mut self.units, cols, rows, r, c, bw4, bh4, &unit, true);
        let ghost t3 = self@;
        proof {
            assert(t3 =~= (Tile { units: t3.units, ..t2 }));
        }
        if info.skip {
            self.reset_block_context(r, c, bw4, bh4);
        }
        proof {
            reveal(block_read);
            let (b, after) = block_read(s, t0, r as int, c as int, bw4 as int, bh4 as int);
            assert(self@ =~= after);
            assert(b =~= (BlockAt {
                r: r as int,
                c: c as int,
                bw4: bw4 as int,
                bh4: bh4 as int,
                info: info@,
                luma,
            }));
        }
        self.residual(&info, r, c, bw4, bh4, luma)
    }
}

/// The partition type that is a split.
pub const PARTITION_SPLIT: usize = 3;

/// The blocks that a partition type makes of a square of `b` units a side. Parts that
/// start outside the frame are left out.
pub open spec fn parts(s: Setup, kind: int, r: int, c: int, b: int) -> Seq<(int, int, int, int)> {
    let (half, quarter) = (b / 2, b / 4);
    if kind == 0 {
        seq![(r, c, b, b)]
    } else if kind == 1 {
        if r + half < s.mi_rows {
            seq![(r, c, b, half), (r + half, c, b, half)]
        } else {
            seq![(r, c, b, half)]
        }
    } else if kind == 2 {
        if c + half < s.mi_cols {
            seq![(r, c, half, b), (r, c + half, half, b)]
        } else {
            seq![(r, c, half, b)]
        }
    } else if kind == 4 {
        seq![(r, c, half, half), (r, c + half, half, half), (r + half, c, b, half)]
    } else if kind == 5 {
        seq![(r, c, b, half), (r + half, c, half, half), (r + half, c + half, half, half)]
    } else if kind == 6 {
        seq![(r, c, half, half), (r + half, c, half, half), (r, c + half, half, b)]
    } else if kind == 7 {
        seq![(r, c, half, b), (r, c + half, half, half), (r + half, c + half, half, half)]
    } else if kind == 8 {
        let three = seq![(r, c, b, quarter), (r + quarter, c, b, quarter), (r + 2 * quarter, c, b, quarter)];
        if r + 3 * quarter < s.mi_rows {
            three.push((r + 3 * quarter, c, b, quarter))
        } else {
            three
        }
    } else {
        let three = seq![(r, c, quarter, b), (r, c + quarter, quarter, b), (r, c + 2 * quarter, quarter, b)];
        if c + 3 * quarter < s.mi_cols {
            three.push((r, c + 3 * quarter, quarter, b))
        } else {
            three
        }
    }
}

/// The row of a partition symbol: the blocks above and to the left that are narrower
/// or lower than the square select it.
pub open spec fn partition_row(s: Setup, units: Seq<Unit>, r: int, c: int, b: int) -> int {
    let side = log2(b);
    let above: int = if r > 0 && s.unit(units, r - 1, c).wide < side {
        1
    } else {
        0
    };
    let left: int = if c > 0 && s.unit(units, r, c - 1).high < side {
        1
    } else {
        0
    };
    ROW_PARTITION + 4 * (side - 1) + 2 * left + above
}

/// The partition type of a square, and the stream after it. A square that hangs over
/// one edge is split or halved along it; one that hangs over both is split.
pub open spec fn partition_kind(s: Setup, t: Tile, r: int, c: int, b: int) -> (int, Coded) {
    let has_rows = r + b / 2 < s.mi_rows;
    let has_cols = c + b / 2 < s.mi_cols;
    let row = partition_row(s, t.units, r, c, b);
    if b < 2 {
        (0, t.st)
    } else if has_rows && has_cols {
        next(t.st, false, row)
    } else if has_cols || has_rows {
        let (split, st) = split_or(t.st, row, has_cols, row >= 16);
        (
            if split {
                PARTITION_SPLIT as int
            } else if has_cols {
                1
            } else {
                2
            },
            st,
        )
    } else {
        (PARTITION_SPLIT as int, t.st)
    }
}

/// A tile after some blocks.
pub open spec fn all_decoded(s: Setup, q: QuantTables, t: Tile, list: Seq<(int, int, int, int)>) -> Option<Tile>
    decreases list.len(),
{
    if list.len() == 0 {
        Some(t)
    } else {
        let (r, c, bw4, bh4) = list[0];
        match coding_block(s, q, t, r, c, bw4, bh4) {
            None => None,
            Some(after) => all_decoded(s, q, after, list.skip(1)),
        }
    }
}

/// A tile after a square of `b` units a side.
pub open spec fn partition(s: Setup, q: QuantTables, t: Tile, r: int, c: int, b: int) -> Option<Tile>
    decreases b,
{
    if !s.has(r, c) {
        Some(t)
    } else {
        let (kind, st) = partition_kind(s, t, r, c, b);
        let start = Tile { st, ..t };
        let half = b / 2;
        if kind == PARTITION_SPLIT && b >= 2 {
            match partition(s, q, start, r, c, half) {
                None => None,
                Some(first) => match partition(s, q, first, r, c + half, half) {
                    None => None,
                    Some(second) => match partition(s, q, second, r + half, c, half) {
                        None => None,
                        Some(third) => partition(s, q, third, r + half, c + half, half),
                    },
                },
            }
        } else {
            all_decoded(s, q, start, parts(s, kind, r, c, b))
        }
    }
}

/// Whether a number is the side of a square in units.
pub open spec fn is_side(b: int) -> bool {
    b == 1 || b == 2 || b == 4 || b == 8 || b == 16 || b == 32
}

/// The logarithm of a side.
proof fn lemma_side_log(b: int)
    requires
        is_side(b),
    ensures
        b == 1 ==> log2(b) == 0,
        b == 2 ==> log2(b) == 1,
        b == 4 ==> log2(b) == 2,
        b == 8 ==> log2(b) == 3,
        b == 16 ==> log2(b) == 4,
        b == 32 ==> log2(b) == 5,
{
    reveal_with_fuel(log2, 7);
}

/// The logarithm of a block side is short.
proof fn lemma_short_log(n: int)
    requires
        1 <= n <= 32,
    ensures
        0 <= log2(n) <= 5,
{
    reveal_with_fuel(log2, 7);
}

/// A list of blocks as numbers.
spec fn parts_view(list: Seq<(usize, usize, usize, usize)>) -> Seq<(int, int, int, int)> {
    Seq::new(list.len(), |i: int| (list[i].0 as int, list[i].1 as int, list[i].2 as int, list[i].3 as int))
}

/// The blocks that a partition type makes of a square.
fn parts_of(s: &Setup, kind: usize, r: usize, c: usize, b: usize) -> (list: Vec<(usize, usize, usize, usize)>)
    requires
        s.wf(),
        s.has(r as int, c as int),
        is_side(b as int),
        kind != PARTITION_SPLIT,
        kind <= 9,
        kind == 1 || kind == 2 ==> b >= 2,
        kind >= 4 ==> b >= 4 && r + b / 2 < s.mi_rows && c + b / 2 < s.mi_cols,
    ensures
        parts_view(list@) == parts(*s, kind as int, r as int, c as int, b as int),
        forall|i: int|
            0 <= i < list@.len() ==> s.has((#[trigger] list@[i]).0 as int, list@[i].1 as int) && 1 <= list@[i].2 <= 32
                && 1 <= list@[i].3 <= 32,
{
    let half = b / 2;
    let quarter = b / 4;
    let mut list: Vec<(usize, usize, usize, usize)> = Vec::new();
    if kind == 0 {
        list.push((r, c, b, b));
    } else if kind == 1 {
        list.push((r, c, b, half));
        if r + half < s.mi_rows {
            list.push((r + half, c, b, half));
        }
    } else if kind == 2 {
        list.push((r, c, half, b));
        if c + half < s.mi_cols {
            list.push((r, c + half, half, b));
        }
    } else if kind == 4 {
        list.push((r, c, half, half));
        list.push((r, c + half, half, half));
        list.push((r + half, c, b, half));
    } else if kind == 5 {
        list.push((r, c, b, half));
        list.push((r + half, c, half, half));
        list.push((r + half, c + half, half, half));
    } else if kind == 6 {
        list.push((r, c, half, half));
        list.push((r + half, c, half, half));
        list.push((r, c + half, half, b));
    } else if kind == 7 {
        list.push((r, c, half, b));
        list.push((r, c + half, half, half));
        list.push((r + half, c + half, half, half));
    } else if kind == 8 {
        list.push((r, c, b, quarter));
        list.push((r + quarter, c, b, quarter));
        list.push((r + 2 * quarter, c, b, quarter));
        if r + 3 * quarter < s.mi_rows {
            list.push((r + 3 * quarter, c, b, quarter));
        }
    } else {
        list.push((r, c, quarter, b));
        list.push((r, c + quarter, quarter, b));
        list.push((r, c + 2 * quarter, quarter, b));
        if c + 3 * quarter < s.mi_cols {
            list.push((r, c + 3 * quarter, quarter, b));
        }
    }
    assert(parts_view(list@) =~= parts(*s, kind as int, r as int, c as int, b as int));
    list
}

impl<'a> TileState<'a> {
    /// Read the partition type of a square.
    fn read_partition(&mut self, r: usize, c: usize, b: usize) -> (res: Outcome<usize>)
        requires
            old(self).wf(),
            old(self).fixed().has(r as int, c as int),
            is_side(b as int),
            r % b == 0,
            c % b == 0,
        ensures
            res is Ok,
            ({
                let m = partition_kind(old(self).fixed(), old(self)@, r as int, c as int, b as int);
                &&& res->Ok_0 == m.0
                &&& final(self)@ == (Tile { st: m.1, ..old(self)@ })
            }),
            res->Ok_0 <= 9,
            b == 1 ==> res->Ok_0 == 0,
            res->Ok_0 >= 4 ==> b >= 4 && r + b / 2 < old(self).fixed().mi_rows && c + b / 2
                < old(self).fixed().mi_cols,
            final(self).continues(*old(self)),
    {
        let ghost before = self@;
        if b < 2 {
            assert(self@ =~= (Tile { st: before.st, ..before }));
            return Ok(0);
        }
        proof {
            lemma_side_log(b as int);
        }
        let side = floor_log2_usize(b) as usize;
        let half = b / 2;
        let has_rows = r + half < self.setup.mi_rows;
        let has_cols = c + half < self.setup.mi_cols;
        let mut k = ROW_PARTITION + 4 * (side - 1);
        if r > 0 && (self.setup.unit_at(&self.units, r - 1, c).wide as usize) < side {
            k = k + 1;
        }
        if c > 0 && (self.setup.unit_at(&self.units, r, c - 1).high as usize) < side {
            k = k + 2;
        }
        proof {
            assert(k == partition_row(self.setup, self@.units, r as int, c as int, b as int));
            if b == 2 {
                assert(has_rows && has_cols);
                assert(self.stream@.rows[k as int].len() == 5);
            } else if b == 32 {
                assert(self.stream@.rows[k as int].len() == 9);
            } else {
                assert(self.stream@.rows[k as int].len() == 11);
            }
        }
        let kind: usize = if has_rows && has_cols {
            self.stream.pick(k)?
        } else if has_cols || has_rows {
            let split = self.stream.split_or(k, has_cols)?;
            if split {
                PARTITION_SPLIT
            } else if has_cols {
                1
            } else {
                2
            }
        } else {
            PARTITION_SPLIT
        };
        assert(self@ =~= (Tile { st: self@.st, ..before }));
        Ok(kind)
    }

    /// Decode a square.
    fn decode_partition(&mut self, r: usize, c: usize, b: usize) -> (res: Outcome<()>)
        requires
            old(self).wf(),
            is_side(b as int),
            r % b == 0,
            c % b == 0,
            r <= 0x8000,
            c <= 0x8000,
        ensures
            ({
                let m = partition(
                    old(self).fixed(),
                    old(self).tables(),
                    old(self)@,
                    r as int,
                    c as int,
                    b as int,
                );
                &&& res is Ok <==> m is Some
                &&& res is Ok ==> final(self)@ == m->0
            }),
            res is Err ==> res->Err_0.fault() == residual_fault(),
            final(self).continues(*old(self)),
        decreases b,
    {
        if r >= self.setup.mi_rows || c >= self.setup.mi_cols {
            return Ok(());
        }
        let ghost (s, q) = (self.setup, *self.quant);
        let kind = self.read_partition(r, c, b)?;
        if kind == PARTITION_SPLIT {
            let half = b / 2;
            proof {
                assert(is_side(half as int));
                lemma_halves(r as int, b as int);
                lemma_halves(c as int, b as int);
            }
            self.decode_partition(r, c, half)?;
            self.decode_partition(r, c + half, half)?;
            self.decode_partition(r + half, c, half)?;
            self.decode_partition(r + half, c + half, half)
        } else {
            let list = parts_of(&self.setup, kind, r, c, b);
            let ghost start = self@;
            let ghost whole = parts_view(list@);
            let mut i: usize = 0;
            assert(whole.skip(0) =~= whole);
            while i < list.len()
                invariant
                    i <= list@.len(),
                    self.continues(*old(self)),
                    self.fixed() == s,
                    self.tables() == q,
                    whole == parts_view(list@),
                    forall|k: int|
                        0 <= k < list@.len() ==> s.has((#[trigger] list@[k]).0 as int, list@[k].1 as int) && 1
                            <= list@[k].2 <= 32 && 1 <= list@[k].3 <= 32,
                    all_decoded(s, q, start, whole) == all_decoded(s, q, self@, whole.skip(i as int)),
                    partition(old(self).fixed(), old(self).tables(), old(self)@, r as int, c as int, b as int)
                        == all_decoded(s, q, start, whole),
                decreases list@.len() - i,
            {
                let (y, x, bw4, bh4) = list[i];
                proof {
                    assert(s.has(list@[i as int].0 as int, list@[i as int].1 as int));
                    assert(whole.skip(i as int)[0] == whole[i as int]);
                    assert(whole.skip(i as int).skip(1) =~= whole.skip(i + 1));
                }
                self.decode_block(y, x, bw4, bh4)?;
                i = i + 1;
            }
            Ok(())
        }
    }
}

/// A multiple of a side, and it with half of the side more, are multiples of the half.
proof fn lemma_halves(r: int, b: int)
    requires
        is_side(b),
        b >= 2,
        r >= 0,
        r % b == 0,
    ensures
        r % (b / 2) == 0,
        (r + b / 2) % (b / 2) == 0,
{
    let (k, h) = (r / b, b / 2);
    assert(b == 2 * h && h >= 1);
    assert(r == h * (2 * k) && r + h == h * (2 * k + 1)) by (nonlinear_arith)
        requires
            b == 2 * h,
            b > 0,
            r % b == 0,
            k == r / b,
    ;
    vstd::arithmetic::div_mod::lemma_mod_multiples_basic(2 * k, h);
    vstd::arithmetic::div_mod::lemma_mod_multiples_basic(2 * k + 1, h);
    assert((2 * k) * h == h * (2 * k) && (2 * k + 1) * h == h * (2 * k + 1)) by (nonlinear_arith);
}

/// The flags of a plane when a superblock starts: the units above it and to its
/// left that the frame has are decoded, but not the one below its left column.
pub open spec fn cleared(s: Setup, r: int, c: int) -> Seq<u8> {
    let stride = s.sb_size4 + 2;
    Seq::new(
        (stride * stride) as nat,
        |k: int|
            {
                let (row, column) = (k / stride - 1, k % stride - 1);
                if (row == -1 && column < s.mi_cols - c) || (column == -1 && row < s.mi_rows - r && row != s.sb_size4) {
                    1u8
                } else {
                    0u8
                }
            },
    )
}

/// A tile when a superblock starts. What is to the left is forgotten at the start
/// of a row of them.
pub open spec fn superblock_started(s: Setup, t: Tile, r: int, c: int) -> Tile {
    Tile {
        flags: Seq::new(s.num_planes as nat, |i: int| cleared(s, r, c)),
        levels: if c == 0 {
            Seq::new(t.levels.len(), |i: int| t.levels[i].at_row_start())
        } else {
            t.levels
        },
        ..t
    }
}

/// A tile after its superblocks from a place on, row by row; none where the residual
/// of a block is unsupported.
pub open spec fn superblocks(s: Setup, q: QuantTables, t: Tile, r: int, c: int) -> Option<Tile>
    decreases max(s.mi_rows - r, 0), max(s.mi_cols - c, 0),
    when s.sb_size4 > 0
{
    if r >= s.mi_rows {
        Some(t)
    } else if c >= s.mi_cols {
        superblocks(s, q, t, r + s.sb_size4, 0)
    } else {
        match partition(s, q, superblock_started(s, t, r, c), r, c, s.sb_size4 as int) {
            Some(u) => superblocks(s, q, u, r, c + s.sb_size4),
            None => None,
        }
    }
}

/// The flags of a plane when a superblock starts.
fn cleared_flags(s: &Setup, r: usize, c: usize) -> (flags: Vec<u8>)
    requires
        s.wf(),
        s.has(r as int, c as int),
    ensures
        flags@ == cleared(*s, r as int, c as int),
        flags@.len() == (s.sb_size4 + 2) * (s.sb_size4 + 2),
{
    let stride = s.sb_size4 + 2;
    proof {
        assert(0 <= stride * stride <= 1156) by (nonlinear_arith)
            requires
                0 <= stride <= 34,
        ;
    }
    let total = stride * stride;
    let mut flags: Vec<u8> = Vec::new();
    while flags.len() < total
        invariant
            s.wf(),
            s.has(r as int, c as int),
            stride == s.sb_size4 + 2,
            stride == 18 || stride == 34,
            total == stride * stride,
            flags@.len() <= total,
            forall|k: int| 0 <= k < flags@.len() ==> #[trigger] flags@[k] == cleared(*s, r as int, c as int)[k],
        decreases total - flags@.len(),
    {
        let k = flags.len();
        let (row, column) = (k / stride, k % stride);
        if (row == 0 && column < s.mi_cols - c + 1) || (column == 0 && row < s.mi_rows - r + 1 && row != s.sb_size4 + 1) {
            flags.push(1);
        } else {
            flags.push(0);
        }
        assert(flags@[k as int] == cleared(*s, r as int, c as int)[k as int]);
    }
    assert(flags@ =~= cleared(*s, r as int, c as int));
    flags
}

impl<'a> TileState<'a> {
    /// Clear the flags of every plane for a superblock.
    fn clear_block_decoded(&mut self, r: usize, c: usize)
        requires
            old(self).wf(),
            old(self).fixed().has(r as int, c as int),
        ensures
            final(self)@ == (Tile {
                flags: Seq::new(
                    old(self).fixed().num_planes as nat,
                    |i: int| cleared(old(self).fixed(), r as int, c as int),
                ),
                ..old(self)@
            }),
            final(self).continues(*old(self)),
    {
        let ghost s = self.setup;
        let planes = self.setup.num_planes;
        let mut flags: Vec<Vec<u8>> = Vec::new();
        while flags.len() < planes
            invariant
                self == old(self),
                self.wf(),
                self.setup == s,
                planes == s.num_planes,
                s.has(r as int, c as int),
                flags@.len() <= planes,
                forall|i: int| 0 <= i < flags@.len() ==> (#[trigger] flags@[i])@ == cleared(s, r as int, c as int),
                forall|i: int| 0 <= i < flags@.len() ==> (#[trigger] flags@[i])@.len() == (s.sb_size4 + 2) * (
                s.sb_size4 + 2),
            decreases planes - flags@.len(),
        {
            flags.push(cleared_flags(&self.setup, r, c));
        }
        self.block_decoded = flags;
        proof {
            assert(self@.flags =~= Seq::new(s.num_planes as nat, |i: int| cleared(s, r as int, c as int)));
            assert(self@ =~= (Tile { flags: self@.flags, ..old(self)@ }));
            assert forall|i: int| 0 <= i < self@.flags.len() implies (#[trigger] self@.flags[i]).len() == (s.sb_size4
                + 2) * (s.sb_size4 + 2) by {
                assert(flags@[i]@.len() == (s.sb_size4 + 2) * (s.sb_size4 + 2));
            }
        }
    }

    /// Forget what is to the left, in every plane.
    fn reset_left_context(&mut self)
        requires
            old(self).wf(),
        ensures
            final(self)@ == (Tile {
                levels: Seq::new(old(self)@.levels.len(), |i: int| old(self)@.levels[i].at_row_start()),
                ..old(self)@
            }),
            final(self).continues(*old(self)),
    {
        let ghost start = self.ctx@;
        let mut i: usize = 0;
        while i < self.ctx.len()
            invariant
                i <= self.ctx@.len(),
                self.ctx@.len() == start.len(),
                old(self).ctx@ == start,
                old(self).wf(),
                self.setup == old(self).setup,
                self.quant == old(self).quant,
                self.stream == old(self).stream,
                self.coeff == old(self).coeff,
                self.depth == old(self).depth,
                self.planes == old(self).planes,
                self.units == old(self).units,
                self.lf_tx_sizes == old(self).lf_tx_sizes,
                self.block_decoded == old(self).block_decoded,
                forall|k: int| 0 <= k < i ==> (#[trigger] self.ctx@[k])@ == start[k]@.at_row_start(),
                forall|k: int| i <= k < start.len() ==> #[trigger] self.ctx@[k] == start[k],
            decreases self.ctx@.len() - i,
        {
            let ctx = &mut self.ctx[i];
            ctx.reset_left();
            i = i + 1;
        }
        proof {
            let new = Seq::new(start.len(), |i: int| old(self)@.levels[i].at_row_start());
            assert(self@.levels =~= new);
            assert(self@ =~= (Tile { levels: new, ..old(self)@ }));
        }
    }

    /// Decode every superblock.
    fn decode(&mut self) -> (res: Outcome<()>)
        requires
            old(self).wf(),
        ensures
            ({
                let m = superblocks(old(self).fixed(), old(self).tables(), old(self)@, 0, 0);
                &&& res is Ok <==> m is Some
                &&& res is Ok ==> final(self)@ == m->0
            }),
            res is Err ==> res->Err_0.fault() == residual_fault(),
            final(self).continues(*old(self)),
    {
        let ghost (s, q, start) = (self.setup, *self.quant, self@);
        let side = self.setup.sb_size4;
        let mut r: usize = 0;
        let mut c: usize = 0;
        while r < self.setup.mi_rows
            invariant
                self.continues(*old(self)),
                self.fixed() == s,
                self.tables() == q,
                s.wf(),
                side == s.sb_size4,
                r <= 0x4020,
                c < s.mi_cols,
                r % side == 0,
                c % side == 0,
                start == old(self)@,
                s == old(self).fixed(),
                q == old(self).tables(),
                superblocks(s, q, start, 0, 0) == superblocks(s, q, self@, r as int, c as int),
            decreases 0x4020 - r, s.mi_cols - c,
        {
            let ghost before = self@;
            if c == 0 {
                self.reset_left_context();
            }
            self.clear_block_decoded(r, c);
            proof {
                assert(self@ =~= superblock_started(s, before, r as int, c as int));
            }
            self.decode_partition(r, c, side)?;
            proof {
                lemma_next_multiple(r as int, side as int);
                lemma_next_multiple(c as int, side as int);
                assert(superblocks(s, q, before, r as int, c as int) == superblocks(
                    s,
                    q,
                    self@,
                    r as int,
                    c + side,
                ));
                if c + side >= s.mi_cols {
                    assert(superblocks(s, q, self@, r as int, c + side) == superblocks(s, q, self@, r + side, 0));
                }
            }
            c = c + side;
            if c >= self.setup.mi_cols {
                c = 0;
                r = r + side;
            }
        }
        Ok(())
    }
}

/// The multiple of a side after another.
proof fn lemma_next_multiple(r: int, side: int)
    requires
        side == 16 || side == 32,
        r % side == 0,
    ensures
        (r + side) % side == 0,
{
}

/// A unit before its block is decoded.
pub open spec fn blank_unit() -> Unit {
    Unit {
        y_mode: 0,
        uv_mode: 0,
        skip: false,
        wide: 0,
        high: 0,
        tx_size: 0,
        size_y: 0,
        size_uv: 0,
        colours_y: [0u16, 0, 0, 0, 0, 0, 0, 0],
        colours_uv: [0u16, 0, 0, 0, 0, 0, 0, 0],
    }
}

/// A row of zeros.
pub open spec fn zeros(n: int) -> Seq<u8> {
    Seq::new(n as nat, |i: int| 0u8)
}

/// A black plane as large as the frame's units.
pub open spec fn blank_plane(s: Setup) -> Samples {
    let (width, height) = (4 * s.mi_cols, 4 * s.mi_rows);
    Samples { data: Seq::new((width * height) as nat, |i: int| 0u16), width, height }
}

/// Levels and signs before any block leaves some.
pub open spec fn blank_levels(s: Setup) -> Levels {
    Levels {
        above_level: zeros(s.mi_cols as int),
        above_dc: zeros(s.mi_cols as int),
        left_level: zeros(s.mi_rows as int),
        left_dc: zeros(s.mi_rows as int),
    }
}

/// A tile before its first symbol.
pub open spec fn fresh(s: Setup, data: Seq<u8>, d: Defaults, qctx: int) -> Tile {
    Tile {
        st: Coded { sym: start(data), rows: d.modes@ },
        coeffs: d.coeffs@[qctx]@,
        depths: d.depths@,
        planes: Seq::new(s.num_planes as nat, |i: int| blank_plane(s)),
        units: Seq::new((s.mi_cols * s.mi_rows) as nat, |i: int| blank_unit()),
        sizes: Seq::new(3, |i: int| zeros(s.mi_cols * s.mi_rows)),
        flags: Seq::new(s.num_planes as nat, |i: int| zeros((s.sb_size4 + 2) * (s.sb_size4 + 2))),
        levels: Seq::new(s.num_planes as nat, |i: int| blank_levels(s)),
    }
}

/// What a frame's decoding starts from besides its headers and its data: the
/// distributions before any symbol has adapted them, and the quantiser's steps.
pub struct Defaults {
    /// The distributions of block modes.
    pub modes: CdfTable,
    /// The distributions of coefficients, one table for each range of the
    /// quantiser.
    pub coeffs: [CdfTable; 4],
    /// The distributions of transform depths.
    pub depths: CdfTable,
    /// The steps of the quantiser.
    pub quant: QuantTables,
}

impl Defaults {
    /// Every table has the rows that its symbols are read through.
    pub open spec fn wf(&self) -> bool {
        &&& mode_rows(self.modes@)
        &&& forall|i: int| 0 <= i < 4 ==> coeff_rows((#[trigger] self.coeffs@[i])@)
        &&& depth_rows(self.depths@)
    }

    /// The tables to start from; none where one has other rows than its symbols are
    /// read through.
    pub fn new(modes: CdfTable, coeffs: [CdfTable; 4], depths: CdfTable, quant: QuantTables) -> (r: Option<Defaults>)
        ensures
            ({
                let all = Defaults { modes, coeffs, depths, quant };
                r == if all.wf() {
                    Some(all)
                } else {
                    None
                }
            }),
    {
        let all = Defaults { modes, coeffs, depths, quant };
        if all.fits() {
            Some(all)
        } else {
            None
        }
    }

    /// Whether every table has the rows that its symbols are read through.
    pub fn fits(&self) -> (r: bool)
        ensures
            r == self.wf(),
    {
        if !is_mode_table(&self.modes) || !is_depth_table(&self.depths) {
            return false;
        }
        let mut i: usize = 0;
        while i < 4
            invariant
                i <= 4,
                forall|k: int| 0 <= k < i ==> coeff_rows((#[trigger] self.coeffs@[k])@),
            decreases 4 - i,
        {
            if !is_coeff_table(&self.coeffs[i]) {
                assert(!coeff_rows(self.coeffs@[i as int]@));
                return false;
            }
            i = i + 1;
        }
        true
    }
}

/// A vector of zeros.
fn zero_row(n: usize) -> (r: Vec<u8>)
    ensures
        r@ == zeros(n as int),
{
    let r: Vec<u8> = vec![0; n];
    assert(r@ =~= zeros(n as int));
    r
}

/// Some vectors of zeros.
fn zero_rows(count: usize, n: usize) -> (r: Vec<Vec<u8>>)
    ensures
        grid_views(r@) == Seq::new(count as nat, |i: int| zeros(n as int)),
{
    let mut r: Vec<Vec<u8>> = Vec::new();
    while r.len() < count
        invariant
            r@.len() <= count,
            forall|i: int| 0 <= i < r@.len() ==> (#[trigger] r@[i])@ == zeros(n as int),
        decreases count - r@.len(),
    {
        r.push(zero_row(n));
    }
    assert(grid_views(r@) =~= Seq::new(count as nat, |i: int| zeros(n as int)));
    r
}

/// The planes before anything is decoded.
fn blank_planes(s: &Setup) -> (r: Vec<Plane>)
    requires
        s.wf(),
        (4 * s.mi_cols) * (4 * s.mi_rows) <= usize::MAX,
    ensures
        plane_views(r@) == Seq::new(s.num_planes as nat, |i: int| blank_plane(*s)),
{
    let mut r: Vec<Plane> = Vec::new();
    while r.len() < s.num_planes
        invariant
            s.wf(),
            (4 * s.mi_cols) * (4 * s.mi_rows) <= usize::MAX,
            r@.len() <= s.num_planes,
            forall|i: int| 0 <= i < r@.len() ==> (#[trigger] r@[i])@ == blank_plane(*s),
        decreases s.num_planes - r@.len(),
    {
        let plane = Plane::new(4 * s.mi_cols, 4 * s.mi_rows);
        assert(plane@.data =~= blank_plane(*s).data);
        r.push(plane);
    }
    assert(plane_views(r@) =~= Seq::new(s.num_planes as nat, |i: int| blank_plane(*s)));
    r
}

/// The level contexts before any block leaves some.
fn blank_contexts(s: &Setup) -> (r: Vec<LevelContext>)
    ensures
        level_views(r@) == Seq::new(s.num_planes as nat, |i: int| blank_levels(*s)),
{
    let mut r: Vec<LevelContext> = Vec::new();
    while r.len() < s.num_planes
        invariant
            r@.len() <= s.num_planes,
            forall|i: int| 0 <= i < r@.len() ==> (#[trigger] r@[i])@ == blank_levels(*s),
        decreases s.num_planes - r@.len(),
    {
        r.push(
            LevelContext {
                above_level: zero_row(s.mi_cols),
                above_dc: zero_row(s.mi_cols),
                left_level: zero_row(s.mi_rows),
                left_dc: zero_row(s.mi_rows),
            },
        );
    }
    assert(level_views(r@) =~= Seq::new(s.num_planes as nat, |i: int| blank_levels(*s)));
    r
}

/// A fresh tile is as large as the frame says.
proof fn lemma_fresh_shaped(s: Setup, data: Seq<u8>, d: Defaults, qctx: int)
    requires
        s.wf(),
    ensures
        shaped(s, fresh(s, data, d, qctx)),
{
    let t = fresh(s, data, d, qctx);
    let (a, b) = (s.mi_cols as int, s.mi_rows as int);
    assert(0 <= a * b && 0 <= (4 * a) * (4 * b)) by (nonlinear_arith)
        requires
            0 <= a,
            0 <= b,
    ;
    let stride = s.sb_size4 + 2;
    assert(0 <= stride * stride) by (nonlinear_arith);
    lemma_p2_pos(s.bit_depth as int);
}

impl<'a> TileState<'a> {
    /// Start to decode a tile.
    fn new(setup: Setup, defaults: &'a Defaults, qctx: usize, data: &'a [u8]) -> (r: Outcome<TileState<'a>>)
        requires
            setup.wf(),
            defaults.wf(),
            qctx < 4,
            symbol_addressable(data@.len()),
            (4 * setup.mi_cols) * (4 * setup.mi_rows) <= usize::MAX,
        ensures
            r is Ok,
            r->Ok_0.wf(),
            r->Ok_0.fixed() == setup,
            r->Ok_0.tables() == defaults.quant,
            r->Ok_0@ == fresh(setup, data@, *defaults, qctx as int),
    {
        proof {
            let (a, b) = (setup.mi_cols as int, setup.mi_rows as int);
            assert(0 <= a * b <= (4 * a) * (4 * b)) by (nonlinear_arith)
                requires
                    0 <= a,
                    0 <= b,
            ;
            let stride = setup.sb_size4 + 2;
            assert(0 <= stride * stride <= 1156) by (nonlinear_arith)
                requires
                    0 <= stride <= 34,
            ;
        }
        let units = setup.mi_cols * setup.mi_rows;
        let stride = setup.sb_size4 + 2;
        let blank = Unit {
            y_mode: 0,
            uv_mode: 0,
            skip: false,
            wide: 0,
            high: 0,
            tx_size: 0,
            size_y: 0,
            size_uv: 0,
            colours_y: [0u16, 0, 0, 0, 0, 0, 0, 0],
            colours_uv: [0u16, 0, 0, 0, 0, 0, 0, 0],
        };
        let state = TileState {
            setup,
            quant: &defaults.quant,
            stream: Stream::new(data, &defaults.modes)?,
            coeff: CoeffCdfs::new(&defaults.coeffs, qctx),
            depth: TxDepthCdfs::new(&defaults.depths),
            planes: blank_planes(&setup),
            units: vec![blank; units],
            lf_tx_sizes: zero_rows(3, units),
            block_decoded: zero_rows(setup.num_planes, stride * stride),
            ctx: blank_contexts(&setup),
        };
        proof {
            let t = fresh(setup, data@, *defaults, qctx as int);
            lemma_fresh_shaped(setup, data@, *defaults, qctx as int);
            assert(state@.units =~= t.units);
            assert(state@ =~= t);
        }
        Ok(state)
    }
}

/// A decoded frame's sample planes, in coded order.
pub struct DecodedFrame {
    /// The planes.
    pub planes: Vec<Plane>,
}

impl View for DecodedFrame {
    type V = Seq<Samples>;

    open spec fn view(&self) -> Seq<Samples> {
        plane_views(self.planes@)
    }
}

/// Whether every strength is zero.
pub open spec fn all_zero(s: Seq<u32>) -> bool {
    forall|i: int| 0 <= i < s.len() ==> #[trigger] s[i] == 0
}

/// Whether a frame uses none of the filters that follow the loop filter: those
/// along directions, restoration, scaling and grain.
pub open spec fn later_filters_off(frame: FrameModel) -> bool {
    &&& all_zero(frame.cdef.y_pri)
    &&& all_zero(frame.cdef.y_sec)
    &&& all_zero(frame.cdef.uv_pri)
    &&& all_zero(frame.cdef.uv_sec)
    &&& !frame.restoration.uses
    &&& frame.size.width == frame.size.upscaled
    &&& !frame.film_grain.apply_grain
}

/// Whether a frame is one that is decoded: lossless, or without the later filters;
/// with full chroma; in one tile; and without copies from itself.
pub open spec fn supported(seq: SequenceModel, frame: FrameModel) -> bool {
    &&& frame.coded_lossless() || later_filters_off(frame)
    &&& seq.color.subsampling_x == 0 && seq.color.subsampling_y == 0
    &&& (frame.tiles.col_starts.len() - 1) * (frame.tiles.row_starts.len() - 1) == 1
    &&& !frame.intrabc
}

/// The range of the quantiser that a frame's coefficients start from.
pub open spec fn quantiser_range(base: int) -> int {
    if base <= 20 {
        0
    } else if base <= 60 {
        1
    } else if base <= 120 {
        2
    } else {
        3
    }
}

/// What stays fixed while a frame's tile is decoded.
pub open spec fn setup_of(seq: SequenceModel, frame: FrameModel) -> Setup {
    let q = frame.quant;
    let base = q.base_q_idx as int;
    Setup {
        bit_depth: seq.color.bit_depth,
        num_planes: seq.color.num_planes as usize,
        mi_cols: frame.size.mi_cols() as usize,
        mi_rows: frame.size.mi_rows() as usize,
        filter_intra: seq.filter_intra,
        edge_filter: seq.edge_filter,
        screen_content: frame.screen_content,
        lossless: frame.coded_lossless(),
        select: frame.tx_mode == TxMode::Select,
        q_dc: [(base + q.delta_q_y_dc) as i32, (base + q.delta_q_u_dc) as i32, (base + q.delta_q_v_dc) as i32],
        q_ac: [base as i32, (base + q.delta_q_u_ac) as i32, (base + q.delta_q_v_ac) as i32],
        sb_size4: if seq.sb128 {
            32
        } else {
            16
        },
    }
}

/// What the loop filter reads of a decoded tile.
pub open spec fn filtering(s: Setup, frame: FrameModel, t: Tile) -> Filtering {
    Filtering {
        loop_filter: frame.loop_filter,
        bit_depth: s.bit_depth as int,
        num_planes: s.num_planes as int,
        mi_rows: s.mi_rows as int,
        mi_cols: s.mi_cols as int,
        frame_width: frame.size.upscaled,
        frame_height: frame.size.height,
        sizes: t.sizes,
    }
}

/// The planes of a frame, from its headers and its tile's data: its superblocks
/// decoded, and the loop filter run over them; none where it is unsupported.
pub open spec fn still(seq: SequenceModel, frame: FrameModel, data: Seq<u8>, d: Defaults) -> Option<Seq<Samples>> {
    let s = setup_of(seq, frame);
    let start = fresh(s, data, d, quantiser_range(frame.quant.base_q_idx as int));
    if !supported(seq, frame) {
        None
    } else {
        match superblocks(s, d.quant, start, 0, 0) {
            Some(t) => Some(filtering(s, frame, t).all_filtered(t.planes)),
            None => None,
        }
    }
}

/// What is said of a frame that is not decoded.
pub open spec fn still_fault(seq: SequenceModel, frame: FrameModel) -> Fault {
    if !frame.coded_lossless() && !later_filters_off(frame) {
        unsupported(
            "avif: lossy frames are decoded only with CDEF, loop restoration, super-resolution and film grain disabled (deblocking is applied); those post-filters are not implemented yet"@,
        )
    } else if seq.color.subsampling_x != 0 || seq.color.subsampling_y != 0 {
        unsupported("avif: only 4:4:4 is implemented in the lossless path"@)
    } else if (frame.tiles.col_starts.len() - 1) * (frame.tiles.row_starts.len() - 1) != 1 {
        unsupported("avif: multi-tile decode is not implemented yet"@)
    } else if frame.intrabc {
        unsupported("avif: intra block copy is not implemented yet"@)
    } else {
        residual_fault()
    }
}

/// Whether every strength is zero.
fn is_all_zero(s: &Vec<u32>) -> (r: bool)
    ensures
        r == all_zero(s@),
{
    let mut i: usize = 0;
    while i < s.len()
        invariant
            i <= s@.len(),
            forall|k: int| 0 <= k < i ==> #[trigger] s@[k] == 0,
        decreases s@.len() - i,
    {
        if s[i] != 0 {
            return false;
        }
        i = i + 1;
    }
    true
}

/// Whether a frame uses none of the filters that follow the loop filter.
fn unimplemented_filters_off(frame: &FrameHeader) -> (r: bool)
    ensures
        r == later_filters_off(frame.model()),
{
    let cdef = &frame.cdef;
    let cdef_off = is_all_zero(&cdef.y_pri_strength) && is_all_zero(&cdef.y_sec_strength) && is_all_zero(
        &cdef.uv_pri_strength,
    ) && is_all_zero(&cdef.uv_sec_strength);
    cdef_off && !frame.loop_restoration.uses_lr && frame.frame_width == frame.upscaled_width
        && !frame.film_grain.apply_grain
}

/// What stays fixed while a frame's tile is decoded.
fn read_setup(seq: &SequenceHeader, frame: &FrameHeader) -> (s: Setup)
    requires
        seq.wf(),
        frame.wf(),
    ensures
        s == setup_of(seq.model(), frame.model()),
        s.wf(),
{
    let q = &frame.quantization;
    let base = q.base_q_idx as i32;
    let s = Setup {
        bit_depth: seq.color.bit_depth,
        num_planes: seq.color.num_planes as usize,
        mi_cols: frame.mi_cols as usize,
        mi_rows: frame.mi_rows as usize,
        filter_intra: seq.enable_filter_intra,
        edge_filter: seq.enable_intra_edge_filter,
        screen_content: frame.allow_screen_content_tools,
        lossless: frame.coded_lossless,
        select: frame.tx_mode == TxMode::Select,
        q_dc: [base + q.delta_q_y_dc, base + q.delta_q_u_dc, base + q.delta_q_v_dc],
        q_ac: [base, base + q.delta_q_u_ac, base + q.delta_q_v_ac],
        sb_size4: if seq.use_128x128_superblock {
            32
        } else {
            16
        },
    };
    proof {
        let m = setup_of(seq.model(), frame.model());
        assert(s.q_dc@ =~= m.q_dc@);
        assert(s.q_ac@ =~= m.q_ac@);
        assert(s.q_dc == m.q_dc);
        assert(s.q_ac == m.q_ac);
    }
    s
}

impl<'a> TileState<'a> {
    /// Run the loop filter over the decoded planes, and give them away.
    fn deblock(self, frame: &FrameHeader) -> (planes: Vec<Plane>)
        requires
            self.wf(),
            frame.wf(),
        ensures
            plane_views(planes@) == filtering(self.fixed(), frame.model(), self@).all_filtered(self@.planes),
            forall|i: int|
                0 <= i < planes@.len() ==> (#[trigger] planes@[i])@.wf() && planes@[i]@.fits(
                    self.fixed().bit_depth as int,
                ),
    {
        let ghost (s, t) = (self.setup, self@);
        let mut planes = self.planes;
        let filter = Deblock {
            loop_filter: &frame.loop_filter,
            bit_depth: self.setup.bit_depth,
            num_planes: self.setup.num_planes,
            mi_rows: self.setup.mi_rows,
            mi_cols: self.setup.mi_cols,
            frame_width: frame.upscaled_width as usize,
            frame_height: frame.frame_height as usize,
            lf_tx_sizes: self.lf_tx_sizes.as_slice(),
        };
        proof {
            assert(filter@.sizes =~= t.sizes);
            assert(filter@ == filtering(s, frame.model(), t));
            assert(-64 <= frame.loop_filter.ref_deltas@[0] < 64);
            assert(s.mi_rows * s.mi_cols <= 0x1000_0000) by (nonlinear_arith)
                requires
                    0 <= s.mi_rows <= 0x4000,
                    0 <= s.mi_cols <= 0x4000,
            ;
            assert forall|i: int| 0 <= i < planes@.len() implies filterable((#[trigger] planes@[i])@) by {
                assert(t.planes[i] == planes@[i]@);
            }
        }
        filter.run(&mut planes);
        proof {
            assert(plane_views(planes@) =~= filter@.all_filtered(t.planes));
            assert forall|i: int| 0 <= i < planes@.len() implies (#[trigger] planes@[i])@.wf() && planes@[i]@.fits(
                s.bit_depth as int,
            ) by {
                assert(filterable(planes@[i]@));
                assert(ranged(t.planes[i], s.bit_depth as int));
                lemma_filtering_keeps_range(filter@, t.planes[i], i);
            }
        }
        planes
    }
}

/// Decode a frame of one tile into its planes. Lossless frames are decoded whole.
/// A lossy frame is where the only filter it uses is the loop filter and none of
/// its blocks has a residual. Anything else is unsupported.
pub fn decode_still(seq: &SequenceHeader, frame: &FrameHeader, tile_data: &[u8], defaults: &Defaults) -> (r: Outcome<
    DecodedFrame,
>)
    requires
        seq.wf(),
        frame.wf(),
        defaults.wf(),
        symbol_addressable(tile_data@.len()),
        (4 * frame.mi_cols) * (4 * frame.mi_rows) <= usize::MAX,
    ensures
        ({
            let m = still(seq.model(), frame.model(), tile_data@, *defaults);
            &&& r is Ok <==> m is Some
            &&& r is Ok ==> r->Ok_0@ == m->0
        }),
        r is Ok ==> forall|i: int|
            0 <= i < r->Ok_0@.len() ==> (#[trigger] r->Ok_0@[i]).wf() && r->Ok_0@[i].fits(seq.color.bit_depth as int),
        r is Err ==> r->Err_0.fault() == still_fault(seq.model(), frame.model()),
{
    if !frame.coded_lossless && !unimplemented_filters_off(frame) {
        return Err(
            PixelsError::unsupported(
                "avif: lossy frames are decoded only with CDEF, loop restoration, super-resolution and film grain disabled (deblocking is applied); those post-filters are not implemented yet",
            ),
        );
    }
    if seq.color.subsampling_x != 0 || seq.color.subsampling_y != 0 {
        return Err(PixelsError::unsupported("avif: only 4:4:4 is implemented in the lossless path"));
    }
    proof {
        let (a, b) = (frame.tile_info.cols as int, frame.tile_info.rows as int);
        assert(0 <= a * b <= 0x10_0000) by (nonlinear_arith)
            requires
                0 <= a <= 1024,
                0 <= b <= 1024,
        ;
    }
    if frame.tile_info.count() != 1 {
        return Err(PixelsError::unsupported("avif: multi-tile decode is not implemented yet"));
    }
    if frame.allow_intrabc {
        return Err(PixelsError::unsupported("avif: intra block copy is not implemented yet"));
    }
    let setup = read_setup(seq, frame);
    let base = frame.quantization.base_q_idx;
    let qctx: usize = if base <= 20 {
        0
    } else if base <= 60 {
        1
    } else if base <= 120 {
        2
    } else {
        3
    };
    let mut state = TileState::new(setup, defaults, qctx, tile_data)?;
    state.decode()?;
    let planes = state.deblock(frame);
    Ok(DecodedFrame { planes })
}

/// A transform block of a lossless frame is decoded.
proof fn lemma_lossless_block(s: Setup, q: QuantTables, t: Tile, b: TxAt)
    requires
        s.lossless,
    ensures
        block_decoded(s, q, t, b) is Some,
{
    reveal(block_decoded);
    let levels = t.levels[b.plane];
    let zero = levels.zero_context(b.plane, b.x / 4, b.y / 4, b.size, b.bw4, b.bh4);
    assert(zero < 13);
}

/// The transform blocks of a plane of a lossless frame's block are decoded.
proof fn lemma_lossless_plane(s: Setup, q: QuantTables, t: Tile, b: BlockAt, plane: int, smooth: bool, tx: int, ty: int)
    requires
        s.lossless,
    ensures
        plane_decoded(s, q, t, b, plane, smooth, tx, ty) is Some,
    decreases max(b.bh4 - ty, 0), max(b.bw4 - tx, 0),
{
    let size = plane_size(s, b, plane);
    if ty >= b.bh4 {
    } else if tx >= b.bw4 {
        lemma_lossless_plane(s, q, t, b, plane, smooth, 0, ty + max(size.h() / 4, 1));
    } else {
        lemma_lossless_block(s, q, t, tx_at(s, b, plane, smooth, tx, ty));
        let after = block_decoded(s, q, t, tx_at(s, b, plane, smooth, tx, ty))->0;
        lemma_lossless_plane(s, q, after, b, plane, smooth, tx + max(size.w() / 4, 1), ty);
    }
}

/// The planes of a lossless frame's block are decoded.
proof fn lemma_lossless_planes(s: Setup, q: QuantTables, t: Tile, b: BlockAt, plane: int)
    requires
        s.lossless,
    ensures
        planes_decoded(s, q, t, b, plane) is Some,
    decreases s.num_planes - plane,
{
    if plane < s.num_planes {
        let smooth = smooth_beside(s, t.units, b.r, b.c, plane);
        lemma_lossless_plane(s, q, t, b, plane, smooth, 0, 0);
        let after = plane_decoded(s, q, t, b, plane, smooth, 0, 0)->0;
        lemma_lossless_planes(s, q, after, b, plane + 1);
    }
}

/// The blocks of a lossless frame are decoded.
proof fn lemma_lossless_list(s: Setup, q: QuantTables, t: Tile, list: Seq<(int, int, int, int)>)
    requires
        s.lossless,
    ensures
        all_decoded(s, q, t, list) is Some,
    decreases list.len(),
{
    if list.len() > 0 {
        let (r, c, bw4, bh4) = list[0];
        let (b, read) = block_read(s, t, r, c, bw4, bh4);
        lemma_lossless_planes(s, q, read, b, 0);
        let after = coding_block(s, q, t, r, c, bw4, bh4)->0;
        lemma_lossless_list(s, q, after, list.skip(1));
    }
}

/// A square of a lossless frame is decoded.
proof fn lemma_lossless_partition(s: Setup, q: QuantTables, t: Tile, r: int, c: int, b: int)
    requires
        s.lossless,
    ensures
        partition(s, q, t, r, c, b) is Some,
    decreases b,
{
    if s.has(r, c) {
        let (kind, st) = partition_kind(s, t, r, c, b);
        let start = Tile { st, ..t };
        let half = b / 2;
        if kind == PARTITION_SPLIT && b >= 2 {
            lemma_lossless_partition(s, q, start, r, c, half);
            let first = partition(s, q, start, r, c, half)->0;
            lemma_lossless_partition(s, q, first, r, c + half, half);
            let second = partition(s, q, first, r, c + half, half)->0;
            lemma_lossless_partition(s, q, second, r + half, c, half);
            let third = partition(s, q, second, r + half, c, half)->0;
            lemma_lossless_partition(s, q, third, r + half, c + half, half);
        } else {
            lemma_lossless_list(s, q, start, parts(s, kind, r, c, b));
        }
    }
}

/// The superblocks of a lossless frame are decoded.
proof fn lemma_lossless_superblocks(s: Setup, q: QuantTables, t: Tile, r: int, c: int)
    requires
        s.lossless,
        s.sb_size4 > 0,
    ensures
        superblocks(s, q, t, r, c) is Some,
    decreases max(s.mi_rows - r, 0), max(s.mi_cols - c, 0),
{
    if r >= s.mi_rows {
    } else if c >= s.mi_cols {
        lemma_lossless_superblocks(s, q, t, r + s.sb_size4, 0);
    } else {
        let started = superblock_started(s, t, r, c);
        lemma_lossless_partition(s, q, started, r, c, s.sb_size4 as int);
        let after = partition(s, q, started, r, c, s.sb_size4 as int)->0;
        lemma_lossless_superblocks(s, q, after, r, c + s.sb_size4);
    }
}

/// A lossless frame with full chroma, in one tile and without copies from itself is
/// decoded, whatever its data hold: data that end early read as zeros.
pub proof fn lemma_lossless_is_decoded(seq: SequenceModel, frame: FrameModel, data: Seq<u8>, d: Defaults)
    requires
        frame.coded_lossless(),
        supported(seq, frame),
    ensures
        still(seq, frame, data, d) is Some,
{
    let s = setup_of(seq, frame);
    let start = fresh(s, data, d, quantiser_range(frame.quant.base_q_idx as int));
    lemma_lossless_superblocks(s, d.quant, start, 0, 0);
}

} // verus!
