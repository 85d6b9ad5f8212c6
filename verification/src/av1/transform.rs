//! Dequantisation, the two-dimensional inverse transform, and reconstruction.
//!
//! A transform block is reconstructed by dequantising the coefficient levels
//! (`dequantize`), running a two-dimensional inverse transform
//! (`inverse_transform_2d`), and adding the result to the prediction
//! (`add_residual`). The lossless path is the same chain with both quantiser
//! steps equal to 4 and the Walsh-Hadamard transform, which divides the
//! dequantiser's factor straight back out.
use super::butterfly::{
    apply_1d, bounded, clip, clip_signed, forward_walsh, inverse_wht, lemma_transformed_zero, lemma_walsh_shift,
    lemma_walsh_undoes, lemma_walsh_zero, round2_i64, transformed, walsh, zero, Kind,
};
use super::plane::under;
use crate::math::{abs, clamp, clamp_i32, clamp_i64, lemma_p2_add, lemma_p2_mono, lemma_p2_pos, lemma_p2_values, max, min, p2, pow2_i64, pow2_usize, round2};
use vstd::prelude::*;

verus! {

/// The transform sizes, in the order of their coded index.
#[derive(Clone, Copy, PartialEq, Eq, Structural, Debug)]
pub enum TxSize {
    /// 4 by 4.
    Tx4x4,
    /// 8 by 8.
    Tx8x8,
    /// 16 by 16.
    Tx16x16,
    /// 32 by 32.
    Tx32x32,
    /// 64 by 64.
    Tx64x64,
    /// 4 wide, 8 high.
    Tx4x8,
    /// 8 wide, 4 high.
    Tx8x4,
    /// 8 wide, 16 high.
    Tx8x16,
    /// 16 wide, 8 high.
    Tx16x8,
    /// 16 wide, 32 high.
    Tx16x32,
    /// 32 wide, 16 high.
    Tx32x16,
    /// 32 wide, 64 high.
    Tx32x64,
    /// 64 wide, 32 high.
    Tx64x32,
    /// 4 wide, 16 high.
    Tx4x16,
    /// 16 wide, 4 high.
    Tx16x4,
    /// 8 wide, 32 high.
    Tx8x32,
    /// 32 wide, 8 high.
    Tx32x8,
    /// 16 wide, 64 high.
    Tx16x64,
    /// 64 wide, 16 high.
    Tx64x16,
}

/// The base-two logarithm of each size's width.
pub const TX_WIDTH_LOG2: [u32; 19] = [2, 3, 4, 5, 6, 2, 3, 3, 4, 4, 5, 5, 6, 2, 4, 3, 5, 4, 6];

/// The base-two logarithm of each size's height.
pub const TX_HEIGHT_LOG2: [u32; 19] = [2, 3, 4, 5, 6, 3, 2, 4, 3, 5, 4, 6, 5, 4, 2, 5, 3, 6, 4];

/// The shift after the row pass.
pub const TRANSFORM_ROW_SHIFT: [u32; 19] = [0, 1, 2, 2, 2, 0, 0, 1, 1, 1, 1, 1, 1, 1, 1, 2, 2, 2, 2];

/// The index of the square size whose side is the shorter side.
pub const TX_SIZE_SQR: [u32; 19] = [0, 1, 2, 3, 4, 0, 0, 1, 1, 2, 2, 3, 3, 0, 0, 1, 1, 2, 2];

/// The index of the square size whose side is the longer side.
pub const TX_SIZE_SQR_UP: [u32; 19] = [0, 1, 2, 3, 4, 1, 1, 2, 2, 3, 3, 4, 4, 2, 2, 3, 3, 4, 4];

/// The index of the coded size: a side of 64 is coded as 32.
pub const ADJUSTED_TX_SIZE: [usize; 19] = [0, 1, 2, 3, 3, 5, 6, 7, 8, 9, 10, 3, 3, 13, 14, 15, 16, 9, 10];

impl TxSize {
    /// The coded index of the size.
    pub open spec fn code(self) -> int {
        match self {
            TxSize::Tx4x4 => 0,
            TxSize::Tx8x8 => 1,
            TxSize::Tx16x16 => 2,
            TxSize::Tx32x32 => 3,
            TxSize::Tx64x64 => 4,
            TxSize::Tx4x8 => 5,
            TxSize::Tx8x4 => 6,
            TxSize::Tx8x16 => 7,
            TxSize::Tx16x8 => 8,
            TxSize::Tx16x32 => 9,
            TxSize::Tx32x16 => 10,
            TxSize::Tx32x64 => 11,
            TxSize::Tx64x32 => 12,
            TxSize::Tx4x16 => 13,
            TxSize::Tx16x4 => 14,
            TxSize::Tx8x32 => 15,
            TxSize::Tx32x8 => 16,
            TxSize::Tx16x64 => 17,
            TxSize::Tx64x16 => 18,
        }
    }

    /// The base-two logarithm of the width.
    pub open spec fn wlog(self) -> int {
        TX_WIDTH_LOG2@[self.code()] as int
    }

    /// The base-two logarithm of the height.
    pub open spec fn hlog(self) -> int {
        TX_HEIGHT_LOG2@[self.code()] as int
    }

    /// The width in samples.
    pub open spec fn w(self) -> int {
        p2(self.wlog())
    }

    /// The height in samples.
    pub open spec fn h(self) -> int {
        p2(self.hlog())
    }

    /// The size whose index this size's coefficients are coded with.
    pub open spec fn adjusted(self) -> int {
        ADJUSTED_TX_SIZE@[self.code()] as int
    }

    /// The coded index of the size.
    pub fn index(self) -> (r: usize)
        ensures
            r == self.code(),
            r < 19,
    {
        match self {
            TxSize::Tx4x4 => 0,
            TxSize::Tx8x8 => 1,
            TxSize::Tx16x16 => 2,
            TxSize::Tx32x32 => 3,
            TxSize::Tx64x64 => 4,
            TxSize::Tx4x8 => 5,
            TxSize::Tx8x4 => 6,
            TxSize::Tx8x16 => 7,
            TxSize::Tx16x8 => 8,
            TxSize::Tx16x32 => 9,
            TxSize::Tx32x16 => 10,
            TxSize::Tx32x64 => 11,
            TxSize::Tx64x32 => 12,
            TxSize::Tx4x16 => 13,
            TxSize::Tx16x4 => 14,
            TxSize::Tx8x32 => 15,
            TxSize::Tx32x8 => 16,
            TxSize::Tx16x64 => 17,
            TxSize::Tx64x16 => 18,
        }
    }

    /// The size with a coded index; an index past the last is taken as 4 by 4.
    pub fn from_index(index: usize) -> (r: TxSize)
        ensures
            index < 19 ==> r.code() == index,
            index >= 19 ==> r == TxSize::Tx4x4,
    {
        match index {
            1 => TxSize::Tx8x8,
            2 => TxSize::Tx16x16,
            3 => TxSize::Tx32x32,
            4 => TxSize::Tx64x64,
            5 => TxSize::Tx4x8,
            6 => TxSize::Tx8x4,
            7 => TxSize::Tx8x16,
            8 => TxSize::Tx16x8,
            9 => TxSize::Tx16x32,
            10 => TxSize::Tx32x16,
            11 => TxSize::Tx32x64,
            12 => TxSize::Tx64x32,
            13 => TxSize::Tx4x16,
            14 => TxSize::Tx16x4,
            15 => TxSize::Tx8x32,
            16 => TxSize::Tx32x8,
            17 => TxSize::Tx16x64,
            18 => TxSize::Tx64x16,
            _ => TxSize::Tx4x4,
        }
    }

    /// The base-two logarithm of the width.
    pub fn log2_width(self) -> (r: u32)
        ensures
            r == self.wlog(),
            2 <= r <= 6,
    {
        TX_WIDTH_LOG2[self.index()]
    }

    /// The base-two logarithm of the height.
    pub fn log2_height(self) -> (r: u32)
        ensures
            r == self.hlog(),
            2 <= r <= 6,
    {
        TX_HEIGHT_LOG2[self.index()]
    }

    /// The index of the square size whose side is the shorter side.
    pub fn sqr_idx(self) -> (r: u32)
        ensures
            r == TX_SIZE_SQR@[self.code()],
            r == min(self.wlog(), self.hlog()) - 2,
    {
        TX_SIZE_SQR[self.index()]
    }

    /// The index of the square size whose side is the longer side.
    pub fn sqr_up_idx(self) -> (r: u32)
        ensures
            r == TX_SIZE_SQR_UP@[self.code()],
            r == max(self.wlog(), self.hlog()) - 2,
    {
        TX_SIZE_SQR_UP[self.index()]
    }

    /// The bucket of coefficient distributions the size uses.
    pub fn tx_size_ctx(self) -> (r: usize)
        ensures
            r == (TX_SIZE_SQR@[self.code()] + TX_SIZE_SQR_UP@[self.code()] + 1) / 2,
            r <= 4,
    {
        ((self.sqr_idx() + self.sqr_up_idx() + 1) / 2) as usize
    }

    /// The base-two logarithm of the coded block's width.
    pub fn adjusted_log2_width(self) -> (r: u32)
        ensures
            r == TX_WIDTH_LOG2@[self.adjusted()],
            r == min(self.wlog(), 5),
    {
        TX_WIDTH_LOG2[ADJUSTED_TX_SIZE[self.index()]]
    }

    /// The coded block's height.
    pub fn adjusted_height(self) -> (r: usize)
        ensures
            r == min(self.h(), 32),
    {
        proof {
            lemma_p2_values();
        }
        pow2_usize(TX_HEIGHT_LOG2[ADJUSTED_TX_SIZE[self.index()]])
    }

    /// The coded block's width.
    pub fn adjusted_width(self) -> (r: usize)
        ensures
            r == min(self.w(), 32),
    {
        proof {
            lemma_p2_values();
        }
        pow2_usize(self.adjusted_log2_width())
    }

    /// The number of scan positions the block can code.
    pub fn seg_eob(self) -> (r: usize)
        ensures
            r == if self == TxSize::Tx16x64 || self == TxSize::Tx64x16 {
                512
            } else {
                min(self.w() * self.h(), 1024)
            },
    {
        match self {
            TxSize::Tx16x64 | TxSize::Tx64x16 => 512,
            _ => {
                let w = self.width();
                let h = self.height();
                proof {
                    assert(w * h <= 4096) by (nonlinear_arith)
                        requires
                            w <= 64,
                            h <= 64,
                    ;
                }
                let area = w * h;
                if area < 1024 {
                    area
                } else {
                    1024
                }
            },
        }
    }

    /// Which alphabet codes the end-of-block class.
    pub fn eob_multisize(self) -> (r: usize)
        ensures
            r == min(self.wlog(), 5) + min(self.hlog(), 5) - 4,
    {
        let w = self.log2_width();
        let h = self.log2_height();
        let a = if w < 5 {
            w
        } else {
            5
        };
        let b = if h < 5 {
            h
        } else {
            5
        };
        (a + b - 4) as usize
    }

    /// The width in samples.
    pub fn width(self) -> (r: usize)
        ensures
            r == self.w(),
            4 <= r <= 64,
    {
        proof {
            lemma_p2_values();
        }
        pow2_usize(self.log2_width())
    }

    /// The height in samples.
    pub fn height(self) -> (r: usize)
        ensures
            r == self.h(),
            4 <= r <= 64,
    {
        proof {
            lemma_p2_values();
        }
        pow2_usize(self.log2_height())
    }

    /// The shift after the row pass.
    fn row_shift(self) -> (r: u32)
        ensures
            r == TRANSFORM_ROW_SHIFT@[self.code()],
            r <= 2,
    {
        TRANSFORM_ROW_SHIFT[self.index()]
    }

    /// The denominator of the dequantiser.
    pub open spec fn denominator(self) -> int {
        if self == TxSize::Tx64x64 || self == TxSize::Tx32x64 || self == TxSize::Tx64x32 {
            4
        } else if self == TxSize::Tx32x32 || self == TxSize::Tx16x32 || self == TxSize::Tx32x16 || self
            == TxSize::Tx16x64 || self == TxSize::Tx64x16 {
            2
        } else {
            1
        }
    }

    /// The denominator of the dequantiser.
    fn dq_denom(self) -> (r: i64)
        ensures
            r == self.denominator(),
            1 <= r <= 4,
    {
        match self {
            TxSize::Tx32x32 | TxSize::Tx16x32 | TxSize::Tx32x16 | TxSize::Tx16x64 | TxSize::Tx64x16 => 2,
            TxSize::Tx64x64 | TxSize::Tx32x64 | TxSize::Tx64x32 => 4,
            _ => 1,
        }
    }
}

/// The transform types. The first word names the column transform, the second
/// the row transform.
#[derive(Clone, Copy, PartialEq, Eq, Structural, Debug)]
pub enum TxType {
    /// DCT in both directions.
    DctDct,
    /// ADST columns, DCT rows.
    AdstDct,
    /// DCT columns, ADST rows.
    DctAdst,
    /// ADST in both directions.
    AdstAdst,
    /// Flipped ADST columns, DCT rows.
    FlipadstDct,
    /// DCT columns, flipped ADST rows.
    DctFlipadst,
    /// Flipped ADST in both directions.
    FlipadstFlipadst,
    /// ADST columns, flipped ADST rows.
    AdstFlipadst,
    /// Flipped ADST columns, ADST rows.
    FlipadstAdst,
    /// Identity in both directions.
    Idtx,
    /// DCT columns, identity rows.
    VDct,
    /// Identity columns, DCT rows.
    HDct,
    /// ADST columns, identity rows.
    VAdst,
    /// Identity columns, ADST rows.
    HAdst,
    /// Flipped ADST columns, identity rows.
    VFlipadst,
    /// Identity columns, flipped ADST rows.
    HFlipadst,
}

impl TxType {
    /// The row transform.
    pub open spec fn across(self) -> Kind {
        match self {
            TxType::DctDct | TxType::AdstDct | TxType::FlipadstDct | TxType::HDct => Kind::Dct,
            TxType::Idtx | TxType::VDct | TxType::VAdst | TxType::VFlipadst => Kind::Identity,
            _ => Kind::Adst,
        }
    }

    /// The column transform.
    pub open spec fn down(self) -> Kind {
        match self {
            TxType::DctDct | TxType::DctAdst | TxType::DctFlipadst | TxType::VDct => Kind::Dct,
            TxType::Idtx | TxType::HDct | TxType::HAdst | TxType::HFlipadst => Kind::Identity,
            _ => Kind::Adst,
        }
    }

    /// Whether the column transform is flipped.
    pub open spec fn flips_down(self) -> bool {
        self == TxType::FlipadstDct || self == TxType::FlipadstAdst || self == TxType::VFlipadst || self
            == TxType::FlipadstFlipadst
    }

    /// Whether the row transform is flipped.
    pub open spec fn flips_across(self) -> bool {
        self == TxType::DctFlipadst || self == TxType::AdstFlipadst || self == TxType::HFlipadst || self
            == TxType::FlipadstFlipadst
    }

    /// The row transform.
    fn row_kind(self) -> (r: Kind)
        ensures
            r == self.across(),
    {
        match self {
            TxType::DctDct | TxType::AdstDct | TxType::FlipadstDct | TxType::HDct => Kind::Dct,
            TxType::Idtx | TxType::VDct | TxType::VAdst | TxType::VFlipadst => Kind::Identity,
            _ => Kind::Adst,
        }
    }

    /// The column transform.
    fn col_kind(self) -> (r: Kind)
        ensures
            r == self.down(),
    {
        match self {
            TxType::DctDct | TxType::DctAdst | TxType::DctFlipadst | TxType::VDct => Kind::Dct,
            TxType::Idtx | TxType::HDct | TxType::HAdst | TxType::HFlipadst => Kind::Identity,
            _ => Kind::Adst,
        }
    }

    /// Whether the column transform is a flipped ADST.
    pub fn flip_ud(self) -> (r: bool)
        ensures
            r == self.flips_down(),
    {
        match self {
            TxType::FlipadstDct | TxType::FlipadstAdst | TxType::VFlipadst | TxType::FlipadstFlipadst => true,
            _ => false,
        }
    }

    /// Whether the row transform is a flipped ADST.
    pub fn flip_lr(self) -> (r: bool)
        ensures
            r == self.flips_across(),
    {
        match self {
            TxType::DctFlipadst | TxType::AdstFlipadst | TxType::HFlipadst | TxType::FlipadstFlipadst => true,
            _ => false,
        }
    }
}

/// Coefficients by row and column.
pub type Cells = spec_fn(int, int) -> int;

/// The dequantised coefficients of a transform block; zero outside
/// `width` by `height`.
pub struct Dequant {
    width: usize,
    height: usize,
    values: [[i64; 32]; 32],
}

impl Dequant {
    /// The coefficients fit 24 bits, and at most 32 by 32 of them are populated.
    pub closed spec fn wf(&self) -> bool {
        &&& self.width <= 32
        &&& self.height <= 32
        &&& forall|i: int, j: int|
            0 <= i < 32 && 0 <= j < 32 ==> -0x80_0000 <= #[trigger] self.values@[i]@[j] <= 0x80_0000
    }

    /// The populated width.
    pub closed spec fn across(&self) -> int {
        self.width as int
    }

    /// The populated height.
    pub closed spec fn down(&self) -> int {
        self.height as int
    }

    /// The coefficient at row `i`, column `j`.
    pub closed spec fn cell(&self, i: int, j: int) -> int {
        if 0 <= i < self.height && 0 <= j < self.width {
            self.values@[i]@[j] as int
        } else {
            0
        }
    }

    /// The coefficients by row and column.
    pub open spec fn cells(&self) -> Cells {
        |i: int, j: int| self.cell(i, j)
    }

    /// Coefficients outside the populated part are zero.
    pub proof fn lemma_outside(&self, i: int, j: int)
        requires
            !(0 <= i < self.down() && 0 <= j < self.across()),
        ensures
            self.cell(i, j) == 0,
    {
    }

    /// The block of `width` by `height` coefficients given in raster order;
    /// those past the end of `values` are zero.
    pub fn from_raster(values: &[i64], width: usize, height: usize) -> (r: Dequant)
        requires
            width <= 32,
            height <= 32,
            bounded(values@, 0x80_0000),
        ensures
            r.wf(),
            r.across() == width,
            r.down() == height,
            forall|i: int, j: int|
                0 <= i < height && 0 <= j < width ==> #[trigger] r.cell(i, j) == if i * width + j < values@.len() {
                    values@[i * width + j] as int
                } else {
                    0
                },
    {
        let mut cells = [[0i64; 32]; 32];
        let mut i: usize = 0;
        while i < height
            invariant
                i <= height <= 32,
                width <= 32,
                bounded(values@, 0x80_0000),
                forall|y: int, x: int|
                    0 <= y < 32 && 0 <= x < 32 ==> -0x80_0000 <= #[trigger] cells@[y]@[x] <= 0x80_0000,
                forall|y: int, x: int|
                    0 <= y < i && 0 <= x < width ==> #[trigger] cells@[y]@[x] == if y * width + x < values@.len() {
                        values@[y * width + x]
                    } else {
                        0
                    },
            decreases height - i,
        {
            let ghost above = cells@;
            let mut j: usize = 0;
            while j < width
                invariant
                    i < height <= 32,
                    j <= width <= 32,
                    bounded(values@, 0x80_0000),
                    forall|y: int, x: int|
                        0 <= y < 32 && 0 <= x < 32 ==> -0x80_0000 <= #[trigger] cells@[y]@[x] <= 0x80_0000,
                    forall|y: int| 0 <= y < 32 && y != i ==> #[trigger] cells@[y] == above[y],
                    forall|x: int|
                        0 <= x < j ==> #[trigger] cells@[i as int]@[x] == if i * width + x < values@.len() {
                            values@[i * width + x]
                        } else {
                            0
                        },
                decreases width - j,
            {
                proof {
                    assert(i * width <= 1024) by (nonlinear_arith)
                        requires
                            i <= 32,
                            width <= 32,
                    ;
                }
                let at = i * width + j;
                let v = if at < values.len() {
                    values[at]
                } else {
                    0
                };
                cells[i][j] = v;
                j = j + 1;
            }
            i = i + 1;
        }
        Dequant { width, height, values: cells }
    }

    /// The coefficient at row `i`, column `j`; zero outside the block.
    pub fn at(&self, i: usize, j: usize) -> (r: i64)
        requires
            self.wf(),
        ensures
            r == self.cell(i as int, j as int),
            i >= self.down() || j >= self.across() ==> r == 0,
            -0x80_0000 <= r <= 0x80_0000,
    {
        if i < self.height && j < self.width {
            self.values[i][j]
        } else {
            0
        }
    }
}

/// A coefficient level `level` after dequantisation with step `q`: the product's
/// low 24 bits divided by `denominator`, with the product's sign, limited to
/// `bit_depth + 8` bits.
pub open spec fn dequantized(level: int, q: int, denominator: int, bit_depth: int) -> int {
    let magnitude = abs(level * q) % 0x100_0000 / denominator;
    clip(
        if level * q < 0 {
            -magnitude
        } else {
            magnitude
        },
        8 + bit_depth,
    )
}

/// The level at raster position `at`, zero past the end.
pub open spec fn level_at(quant: Seq<i32>, at: int) -> int {
    if at < quant.len() {
        quant[at] as int
    } else {
        0
    }
}

/// Whether machine integers have room for the levels times their steps.
pub open spec fn products_fit(quant: Seq<i32>, dc_quant: int, ac_quant: int) -> bool {
    forall|k: int|
        0 <= k < quant.len() ==> -i64::MAX <= #[trigger] quant[k] * (if k == 0 {
            dc_quant
        } else {
            ac_quant
        }) <= i64::MAX
}

/// Steps of 32 bits leave room for every level.
pub proof fn lemma_products_fit(quant: Seq<i32>, dc_quant: int, ac_quant: int)
    requires
        -0x8000_0000 <= dc_quant <= 0x8000_0000,
        -0x8000_0000 <= ac_quant <= 0x8000_0000,
    ensures
        products_fit(quant, dc_quant, ac_quant),
{
    assert forall|k: int| 0 <= k < quant.len() implies -i64::MAX <= #[trigger] quant[k] * (if k == 0 {
        dc_quant
    } else {
        ac_quant
    }) <= i64::MAX by {
        let (level, q) = (
            quant[k] as int,
            if k == 0 {
                dc_quant
            } else {
                ac_quant
            },
        );
        assert(-0x4000_0000_0000_0000 <= level * q <= 0x4000_0000_0000_0000) by (nonlinear_arith)
            requires
                -0x8000_0000 <= level <= 0x8000_0000,
                -0x8000_0000 <= q <= 0x8000_0000,
        ;
    }
}

/// Dequantise the levels `quant` of one transform block, given in raster order
/// over its coded region of at most 32 by 32. The first level uses the step
/// `dc_quant`, the others `ac_quant`.
pub fn dequantize(quant: &[i32], tx_size: TxSize, dc_quant: i64, ac_quant: i64, bit_depth: u8) -> (r: Dequant)
    requires
        bit_depth <= 16,
        products_fit(quant@, dc_quant as int, ac_quant as int),
    ensures
        r.wf(),
        r.across() == min(tx_size.w(), 32),
        r.down() == min(tx_size.h(), 32),
        forall|i: int, j: int|
            0 <= i < r.down() && 0 <= j < r.across() ==> #[trigger] r.cell(i, j) == dequantized(
                level_at(quant@, i * r.across() + j),
                if i == 0 && j == 0 {
                    dc_quant as int
                } else {
                    ac_quant as int
                },
                tx_size.denominator(),
                bit_depth as int,
            ),
{
    let tw = tx_size.adjusted_width();
    let th = tx_size.adjusted_height();
    let denom = tx_size.dq_denom();
    let mut values: Vec<i64> = Vec::new();
    proof {
        assert(0 <= tw * th <= 1024) by (nonlinear_arith)
            requires
                0 <= tw <= 32,
                0 <= th <= 32,
        ;
        lemma_p2_mono(7 + bit_depth, 23);
        lemma_p2_values();
        lemma_p2_add(20, 3);
        lemma_p2_pos(7 + bit_depth);
    }
    let area = tw * th;
    let mut at: usize = 0;
    while at < area
        invariant
            at <= area <= 1024,
            values@.len() == at,
            bit_depth <= 16,
            products_fit(quant@, dc_quant as int, ac_quant as int),
            denom == tx_size.denominator(),
            1 <= denom <= 4,
            0 < p2(7 + bit_depth) <= 0x80_0000,
            bounded(values@, 0x80_0000),
            forall|k: int|
                0 <= k < at ==> #[trigger] values@[k] == dequantized(
                    level_at(quant@, k),
                    if k == 0 {
                        dc_quant as int
                    } else {
                        ac_quant as int
                    },
                    tx_size.denominator(),
                    bit_depth as int,
                ),
        decreases area - at,
    {
        let level: i64 = if at < quant.len() {
            quant[at] as i64
        } else {
            0
        };
        let q = if at == 0 {
            dc_quant
        } else {
            ac_quant
        };
        proof {
            if at < quant@.len() {
                assert(quant@[at as int] * (if at == 0 {
                    dc_quant as int
                } else {
                    ac_quant as int
                }) == level * q);
            } else {
                assert(0 * q == 0);
            }
        }
        let dq = level * q;
        let whole = if dq < 0 {
            -dq
        } else {
            dq
        };
        let magnitude = whole % 0x100_0000 / denom;
        proof {
            assert(whole as int % 0x100_0000 / (denom as int) == magnitude);
            assert(0 <= magnitude <= 0x100_0000) by (nonlinear_arith)
                requires
                    magnitude == (whole as int % 0x100_0000) / (denom as int),
                    0 <= whole,
                    1 <= denom,
            ;
        }
        let signed = if dq < 0 {
            -magnitude
        } else {
            magnitude
        };
        values.push(clip_signed(signed, 8 + bit_depth as u32));
        at = at + 1;
    }
    let r = Dequant::from_raster(values.as_slice(), tw, th);
    proof {
        assert forall|i: int, j: int| 0 <= i < th && 0 <= j < tw implies #[trigger] r.cell(i, j) == dequantized(
            level_at(quant@, i * tw + j),
            if i == 0 && j == 0 {
                dc_quant as int
            } else {
                ac_quant as int
            },
            tx_size.denominator(),
            bit_depth as int,
        ) by {
            assert(0 <= i * tw + j < tw * th) by (nonlinear_arith)
                requires
                    0 <= i < th,
                    0 <= j < tw,
            ;
            assert(i * tw + j == 0 <==> i == 0 && j == 0) by (nonlinear_arith)
                requires
                    0 <= i < th,
                    0 <= j < tw,
            ;
            assert(values@[i * tw + j] == dequantized(
                level_at(quant@, i * tw + j),
                if i * tw + j == 0 {
                    dc_quant as int
                } else {
                    ac_quant as int
                },
                tx_size.denominator(),
                bit_depth as int,
            ));
        }
    }
    r
}

/// A reconstructed residual block of `width` by `height` samples, before flipping.
pub struct Residual {
    /// The width in samples.
    pub width: usize,
    /// The height in samples.
    pub height: usize,
    /// The samples; those outside `width` by `height` mean nothing.
    pub values: [[i32; 64]; 64],
}

impl Residual {
    /// The block is at most 64 by 64.
    pub open spec fn wf(&self) -> bool {
        self.width <= 64 && self.height <= 64
    }

    /// The residual at row `i`, column `j`; zero outside the block.
    pub open spec fn cell(&self, i: int, j: int) -> int {
        if 0 <= i < self.height && 0 <= j < self.width {
            self.values@[i]@[j] as int
        } else {
            0
        }
    }

    /// The residual at row `i`, column `j`; zero outside the block.
    pub fn at(&self, i: usize, j: usize) -> (r: i32)
        requires
            self.wf(),
        ensures
            r == self.cell(i as int, j as int),
    {
        if i < self.height && j < self.width {
            self.values[i][j]
        } else {
            0
        }
    }
}

/// A two-dimensional inverse transform.
pub struct Inverse {
    /// The transform size.
    pub size: TxSize,
    /// The transform type.
    pub ty: TxType,
    /// Whether the Walsh-Hadamard transform stands in for both passes.
    pub lossless: bool,
    /// The bit depth of the samples.
    pub depth: int,
}

impl Inverse {
    /// The range, in bits, of what goes into the column pass.
    pub open spec fn range(self) -> int {
        max(self.depth + 6, 16)
    }

    /// What goes into the row pass for row `i`: the coefficients of the row,
    /// scaled by the square root of one half where one side is twice the other.
    pub open spec fn row_in(self, d: Cells, i: int) -> Seq<i64> {
        Seq::new(
            64,
            |j: int|
                if j < self.size.w() {
                    let x = if i < 32 && j < 32 {
                        d(i, j)
                    } else {
                        0
                    };
                    (if abs(self.size.wlog() - self.size.hlog()) == 1 {
                        round2(x * 2896, 12)
                    } else {
                        x
                    }) as i64
                } else {
                    0
                },
        )
    }

    /// What the row pass makes of row `i`.
    pub open spec fn row_out(self, d: Cells, i: int) -> Seq<i64> {
        if self.lossless {
            walsh(self.row_in(d, i), 2)
        } else {
            transformed(self.row_in(d, i), self.ty.across(), self.size.wlog(), self.depth + 8)
        }
    }

    /// The value between the passes at row `i`, column `j`.
    pub open spec fn between(self, d: Cells, i: int, j: int) -> int {
        clip(
            round2(
                self.row_out(d, i)[j] as int,
                if self.lossless {
                    0
                } else {
                    TRANSFORM_ROW_SHIFT@[self.size.code()] as int
                },
            ),
            self.range(),
        )
    }

    /// What goes into the column pass for column `j`.
    pub open spec fn col_in(self, d: Cells, j: int) -> Seq<i64> {
        Seq::new(
            64,
            |i: int|
                if i < self.size.h() {
                    self.between(d, i, j) as i64
                } else {
                    0
                },
        )
    }

    /// What the column pass makes of column `j`.
    pub open spec fn col_out(self, d: Cells, j: int) -> Seq<i64> {
        if self.lossless {
            walsh(self.col_in(d, j), 0)
        } else {
            transformed(self.col_in(d, j), self.ty.down(), self.size.hlog(), self.range())
        }
    }

    /// The residual at row `i`, column `j`.
    pub open spec fn residual(self, d: Cells, i: int, j: int) -> int {
        round2(
            self.col_out(d, j)[i] as int,
            if self.lossless {
                0
            } else {
                4
            },
        )
    }
}

/// What goes into the row pass for row `i`.
fn load_row(d: &Dequant, tx_size: TxSize, i: usize, Ghost(g): Ghost<Inverse>) -> (t: [i64; 64])
    requires
        d.wf(),
        g.size == tx_size,
    ensures
        t@ == g.row_in(d.cells(), i as int),
        bounded(t@, 0x80_0000),
{
    let w = tx_size.width();
    let log2w = tx_size.log2_width();
    let log2h = tx_size.log2_height();
    let scale = log2w == log2h + 1 || log2h == log2w + 1;
    let mut t = [0i64; 64];
    proof {
        lemma_p2_values();
    }
    let mut j: usize = 0;
    while j < w
        invariant
            j <= w <= 64,
            w == tx_size.w(),
            d.wf(),
            g.size == tx_size,
            scale == (abs(tx_size.wlog() - tx_size.hlog()) == 1),
            p2(12) == 4096,
            p2(11) == 2048,
            bounded(t@, 0x80_0000),
            forall|k: int| 0 <= k < j ==> #[trigger] t@[k] == g.row_in(d.cells(), i as int)[k],
            forall|k: int| j <= k < 64 ==> #[trigger] t@[k] == 0,
        decreases w - j,
    {
        let x = if i < 32 && j < 32 {
            d.at(i, j)
        } else {
            0
        };
        t[j] = if scale {
            round2_i64(x * 2896, 12)
        } else {
            x
        };
        j = j + 1;
    }
    assert(t@ =~= g.row_in(d.cells(), i as int));
    t
}

/// The two-dimensional inverse transform of a block of dequantised coefficients.
pub fn inverse_transform_2d(dequant: &Dequant, tx_size: TxSize, tx_type: TxType, lossless: bool, bit_depth: u8) -> (r:
    Residual)
    requires
        dequant.wf(),
        bit_depth <= 16,
    ensures
        r.wf(),
        r.width == tx_size.w(),
        r.height == tx_size.h(),
        forall|i: int, j: int|
            0 <= i < tx_size.h() && 0 <= j < tx_size.w() ==> #[trigger] r.cell(i, j) == (Inverse {
                size: tx_size,
                ty: tx_type,
                lossless,
                depth: bit_depth as int,
            }).residual(dequant.cells(), i, j) as i32,
{
    let ghost g = Inverse { size: tx_size, ty: tx_type, lossless, depth: bit_depth as int };
    let log2w = tx_size.log2_width();
    let log2h = tx_size.log2_height();
    let w = tx_size.width();
    let h = tx_size.height();
    let row_shift: u32 = if lossless {
        0
    } else {
        tx_size.row_shift()
    };
    let col_shift: u32 = if lossless {
        0
    } else {
        4
    };
    let row_clamp = bit_depth as u32 + 8;
    let col_clamp: u32 = if bit_depth < 10 {
        16
    } else {
        bit_depth as u32 + 6
    };
    let mut mid = [[0i64; 64]; 64];
    proof {
        lemma_p2_values();
        lemma_p2_add(20, 1);
        lemma_p2_mono(col_clamp - 1, 21);
        lemma_p2_pos(col_clamp - 1);
    }
    let mut i: usize = 0;
    while i < h
        invariant
            i <= h <= 64,
            w <= 64,
            w == tx_size.w(),
            h == tx_size.h(),
            log2w == tx_size.wlog(),
            2 <= log2w <= 6,
            bit_depth <= 16,
            dequant.wf(),
            g == (Inverse { size: tx_size, ty: tx_type, lossless, depth: bit_depth as int }),
            row_clamp == bit_depth + 8,
            col_clamp == g.range(),
            16 <= col_clamp <= 22,
            row_shift <= 2,
            row_shift == if lossless {
                0int
            } else {
                TRANSFORM_ROW_SHIFT@[tx_size.code()] as int
            },
            0 < p2(col_clamp - 1) <= 0x20_0000,
            forall|y: int, x: int|
                0 <= y < i && 0 <= x < w ==> #[trigger] mid@[y]@[x] == g.between(dequant.cells(), y, x) && -0x80_0000
                    <= mid@[y]@[x] <= 0x80_0000,
        decreases h - i,
    {
        let mut t = load_row(dequant, tx_size, i, Ghost(g));
        if lossless {
            inverse_wht(&mut t, 2);
        } else {
            apply_1d(&mut t, tx_type.row_kind(), log2w, row_clamp);
        }
        assert(t@ == g.row_out(dequant.cells(), i as int));
        let ghost above = mid@;
        let mut j: usize = 0;
        while j < w
            invariant
                j <= w <= 64,
                i < 64,
                t@ == g.row_out(dequant.cells(), i as int),
                bounded(t@, 0x40_0000_0000),
                col_clamp == g.range(),
                g.lossless == lossless,
                g.size == tx_size,
                16 <= col_clamp <= 22,
                row_shift <= 2,
                row_shift == if lossless {
                    0int
                } else {
                    TRANSFORM_ROW_SHIFT@[tx_size.code()] as int
                },
                0 < p2(col_clamp - 1) <= 0x20_0000,
                forall|y: int| 0 <= y < 64 && y != i ==> #[trigger] mid@[y] == above[y],
                forall|x: int|
                    0 <= x < j ==> #[trigger] mid@[i as int]@[x] == g.between(dequant.cells(), i as int, x) && -0x80_0000
                        <= mid@[i as int]@[x] <= 0x80_0000,
            decreases w - j,
        {
            mid[i][j] = clip_signed(round2_i64(t[j], row_shift), col_clamp);
            j = j + 1;
        }
        i = i + 1;
    }
    let mut values = [[0i32; 64]; 64];
    let mut j: usize = 0;
    while j < w
        invariant
            j <= w <= 64,
            h <= 64,
            w == tx_size.w(),
            h == tx_size.h(),
            log2h == tx_size.hlog(),
            2 <= log2h <= 6,
            g == (Inverse { size: tx_size, ty: tx_type, lossless, depth: bit_depth as int }),
            col_clamp == g.range(),
            16 <= col_clamp <= 22,
            col_shift == if lossless {
                0int
            } else {
                4
            },
            forall|y: int, x: int|
                0 <= y < h && 0 <= x < w ==> #[trigger] mid@[y]@[x] == g.between(dequant.cells(), y, x) && -0x80_0000
                    <= mid@[y]@[x] <= 0x80_0000,
            forall|y: int, x: int|
                0 <= y < h && 0 <= x < j ==> #[trigger] values@[y]@[x] == g.residual(dequant.cells(), y, x) as i32,
        decreases w - j,
    {
        let mut t = [0i64; 64];
        let mut i: usize = 0;
        while i < h
            invariant
                i <= h <= 64,
                j < w <= 64,
                h == g.size.h(),
                bounded(t@, 0x80_0000),
                forall|y: int, x: int|
                    0 <= y < h && 0 <= x < w ==> #[trigger] mid@[y]@[x] == g.between(dequant.cells(), y, x) && -0x80_0000
                        <= mid@[y]@[x] <= 0x80_0000,
                forall|y: int| 0 <= y < i ==> #[trigger] t@[y] == g.between(dequant.cells(), y, j as int),
                forall|y: int| i <= y < 64 ==> #[trigger] t@[y] == 0,
            decreases h - i,
        {
            assert(mid@[i as int]@[j as int] == g.between(dequant.cells(), i as int, j as int));
            t[i] = mid[i][j];
            i = i + 1;
        }
        assert(t@ =~= g.col_in(dequant.cells(), j as int));
        if lossless {
            inverse_wht(&mut t, 0);
        } else {
            apply_1d(&mut t, tx_type.col_kind(), log2h, col_clamp);
        }
        assert(t@ == g.col_out(dequant.cells(), j as int));
        let ghost before = values@;
        let mut i: usize = 0;
        while i < h
            invariant
                i <= h <= 64,
                j < w <= 64,
                t@ == g.col_out(dequant.cells(), j as int),
                bounded(t@, 0x40_0000_0000),
                g.lossless == lossless,
                col_shift == if lossless {
                    0int
                } else {
                    4
                },
                forall|y: int, x: int|
                    0 <= y < h && 0 <= x < j ==> #[trigger] before[y]@[x] == g.residual(dequant.cells(), y, x) as i32,
                forall|y: int, x: int|
                    0 <= y < h && 0 <= x < j ==> #[trigger] values@[y]@[x] == g.residual(dequant.cells(), y, x) as i32,
                forall|y: int|
                    0 <= y < i ==> #[trigger] values@[y]@[j as int] == g.residual(dequant.cells(), y, j as int) as i32,
            decreases h - i,
        {
            let v = round2_i64(t[i], col_shift);
            values[i][j] = v as i32;
            i = i + 1;
        }
        j = j + 1;
    }
    Residual { width: w, height: h, values }
}

/// The block that adding a residual to a prediction gives: each sample is the
/// prediction plus the residual at its place, mirrored as the transform type
/// flips, limited to the sample range. Samples past the block stay.
pub open spec fn reconstructed(prediction: Seq<u16>, residual: Residual, ty: TxType, depth: int) -> Seq<u16> {
    let (w, h) = (residual.width as int, residual.height as int);
    Seq::new(
        prediction.len(),
        |k: int|
            if k < w * h {
                let i = if ty.flips_down() {
                    h - 1 - k / w
                } else {
                    k / w
                };
                let j = if ty.flips_across() {
                    w - 1 - k % w
                } else {
                    k % w
                };
                clamp(prediction[k] + residual.cell(i, j), 0, p2(depth) - 1) as u16
            } else {
                prediction[k]
            },
    )
}

/// Reconstruct a transform block: add the residual to the prediction, which is
/// in raster order at the residual's width, and limit to the sample range.
pub fn add_residual(prediction: &[u16], residual: &Residual, tx_type: TxType, bit_depth: u8) -> (r: Vec<u16>)
    requires
        residual.wf(),
        bit_depth <= 16,
    ensures
        r@ == reconstructed(prediction@, *residual, tx_type, bit_depth as int),
{
    let w = residual.width;
    let h = residual.height;
    proof {
        lemma_p2_values();
        lemma_p2_mono(bit_depth as int, 16);
        lemma_p2_pos(bit_depth as int);
        assert(0 <= w * h <= 4096) by (nonlinear_arith)
            requires
                w <= 64,
                h <= 64,
        ;
    }
    let area = w * h;
    let top = pow2_i64(bit_depth as u32) - 1;
    let flip_ud = tx_type.flip_ud();
    let flip_lr = tx_type.flip_lr();
    let mut out: Vec<u16> = Vec::new();
    let mut k: usize = 0;
    while k < prediction.len()
        invariant
            k <= prediction@.len(),
            out@.len() == k,
            residual.wf(),
            w == residual.width,
            h == residual.height,
            area == w * h,
            top == p2(bit_depth as int) - 1,
            0 <= top <= 0xFFFF,
            flip_ud == tx_type.flips_down(),
            flip_lr == tx_type.flips_across(),
            forall|n: int|
                0 <= n < k ==> #[trigger] out@[n] == reconstructed(prediction@, *residual, tx_type, bit_depth as int)[n],
        decreases prediction@.len() - k,
    {
        if k < area {
            proof {
                assert(w > 0 && 0 <= k / w < h && 0 <= k % w < w) by (nonlinear_arith)
                    requires
                        0 <= k < w * h,
                ;
            }
            let y = k / w;
            let x = k % w;
            let i = if flip_ud {
                h - 1 - y
            } else {
                y
            };
            let j = if flip_lr {
                w - 1 - x
            } else {
                x
            };
            let sum = prediction[k] as i64 + residual.at(i, j) as i64;
            out.push(clamp_i64(sum, 0, top) as u16);
        } else {
            out.push(prediction[k]);
        }
        k = k + 1;
    }
    assert(out@ =~= reconstructed(prediction@, *residual, tx_type, bit_depth as int));
    out
}

/// The dequantised coefficients of a block by row and column: the first with the
/// step `dc`, the others with `ac`.
pub open spec fn dequantized_cells(quant: Seq<i32>, size: TxSize, dc: int, ac: int, depth: int) -> Cells {
    |i: int, j: int|
        if 0 <= i < min(size.h(), 32) && 0 <= j < min(size.w(), 32) {
            dequantized(
                level_at(quant, i * min(size.w(), 32) + j),
                if i == 0 && j == 0 {
                    dc
                } else {
                    ac
                },
                size.denominator(),
                depth,
            )
        } else {
            0
        }
}

/// The block that the transform of some coefficients, added to a prediction, gives.
pub open spec fn rebuilt(prediction: Seq<u16>, g: Inverse, d: Cells) -> Seq<u16> {
    let (w, h) = (g.size.w(), g.size.h());
    Seq::new(
        prediction.len(),
        |k: int|
            if k < w * h {
                let i = if g.ty.flips_down() {
                    h - 1 - k / w
                } else {
                    k / w
                };
                let j = if g.ty.flips_across() {
                    w - 1 - k % w
                } else {
                    k % w
                };
                clamp(prediction[k] + (g.residual(d, i, j) as i32), 0, p2(g.depth) - 1) as u16
            } else {
                prediction[k]
            },
    )
}

/// A rebuilt block is made of samples of the bit depth.
pub proof fn lemma_rebuilt_fits(prediction: Seq<u16>, g: Inverse, d: Cells)
    requires
        prediction.len() == g.size.w() * g.size.h(),
        1 <= g.depth <= 16,
    ensures
        under(rebuilt(prediction, g, d), p2(g.depth)),
{
    lemma_p2_values();
    lemma_p2_mono(g.depth, 16);
    lemma_p2_pos(g.depth);
}

/// Rebuild a transform block from its prediction and its levels.
pub fn rebuild(
    prediction: &[u16],
    quant: &[i32],
    tx_size: TxSize,
    tx_type: TxType,
    dc_quant: i64,
    ac_quant: i64,
    lossless: bool,
    bit_depth: u8,
) -> (r: Vec<u16>)
    requires
        bit_depth <= 16,
        products_fit(quant@, dc_quant as int, ac_quant as int),
    ensures
        r@ == rebuilt(
            prediction@,
            (Inverse { size: tx_size, ty: tx_type, lossless, depth: bit_depth as int }),
            dequantized_cells(quant@, tx_size, dc_quant as int, ac_quant as int, bit_depth as int),
        ),
{
    let dequant = dequantize(quant, tx_size, dc_quant, ac_quant, bit_depth);
    let residual = inverse_transform_2d(&dequant, tx_size, tx_type, lossless, bit_depth);
    let r = add_residual(prediction, &residual, tx_type, bit_depth);
    proof {
        let g = Inverse { size: tx_size, ty: tx_type, lossless, depth: bit_depth as int };
        let d = dequantized_cells(quant@, tx_size, dc_quant as int, ac_quant as int, bit_depth as int);
        assert forall|i: int, j: int| #[trigger] d(i, j) == dequant.cells()(i, j) by {
            if !(0 <= i < dequant.down() && 0 <= j < dequant.across()) {
                dequant.lemma_outside(i, j);
            }
        }
        assert(dequant.cells() =~= d);
        let (w, h) = (tx_size.w(), tx_size.h());
        assert forall|k: int| 0 <= k < prediction@.len() implies #[trigger] r@[k] == rebuilt(prediction@, g, d)[k] by {
            if k < w * h {
                lemma_p2_values();
                assert(0 <= k / w < h && 0 <= k % w < w) by (nonlinear_arith)
                    requires
                        0 <= k < w * h,
                        w > 0,
                ;
            }
        }
        assert(r@ =~= rebuilt(prediction@, g, d));
    }
    r
}

/// Reconstruct a 4 by 4 block without flipping.
pub fn add_residual_4x4(prediction: &[[u16; 4]; 4], residual: &Residual, bit_depth: u8) -> (r: [[u16; 4]; 4])
    requires
        residual.wf(),
        bit_depth <= 16,
    ensures
        forall|i: int, j: int|
            0 <= i < 4 && 0 <= j < 4 ==> #[trigger] r@[i]@[j] == reconstructed(
                Seq::new(16, |k: int| prediction@[k / 4]@[k % 4]),
                *residual,
                TxType::DctDct,
                bit_depth as int,
            )[4 * i + j],
{
    let mut flat: Vec<u16> = Vec::new();
    let mut k: usize = 0;
    while k < 16
        invariant
            k <= 16,
            flat@.len() == k,
            forall|n: int| 0 <= n < k ==> #[trigger] flat@[n] == prediction@[n / 4]@[n % 4],
        decreases 16 - k,
    {
        flat.push(prediction[k / 4][k % 4]);
        k = k + 1;
    }
    assert(flat@ =~= Seq::new(16, |k: int| prediction@[k / 4]@[k % 4]));
    let out = add_residual(flat.as_slice(), residual, TxType::DctDct, bit_depth);
    let mut r = [[0u16; 4]; 4];
    let mut i: usize = 0;
    while i < 4
        invariant
            i <= 4,
            out@.len() == 16,
            forall|y: int, x: int| 0 <= y < i && 0 <= x < 4 ==> #[trigger] r@[y]@[x] == out@[4 * y + x],
        decreases 4 - i,
    {
        let ghost above = r@;
        let mut j: usize = 0;
        while j < 4
            invariant
                i < 4,
                j <= 4,
                out@.len() == 16,
                forall|y: int| 0 <= y < 4 && y != i ==> #[trigger] r@[y] == above[y],
                forall|x: int| 0 <= x < j ==> #[trigger] r@[i as int]@[x] == out@[4 * i + x],
            decreases 4 - j,
        {
            r[i][j] = out[4 * i + j];
            j = j + 1;
        }
        i = i + 1;
    }
    r
}

/// The quantiser steps by bit depth (8, 10 and 12) and quantiser index.
pub struct QuantTables {
    /// The steps of the first coefficient.
    pub dc: [[i32; 256]; 3],
    /// The steps of the other coefficients.
    pub ac: [[i32; 256]; 3],
}

/// The row of the quantiser tables for a bit depth.
pub open spec fn quant_row(bit_depth: int) -> int {
    min(max(bit_depth - 8, 0) / 2, 2)
}

impl QuantTables {
    /// The row of the tables for a bit depth.
    fn row(bit_depth: u8) -> (r: usize)
        ensures
            r == quant_row(bit_depth as int),
            r <= 2,
    {
        if bit_depth < 10 {
            0
        } else if bit_depth < 12 {
            1
        } else {
            2
        }
    }

    /// The first coefficient's step at quantiser index `b`, limited to `0..=255`.
    pub fn dc_q(&self, bit_depth: u8, b: i32) -> (r: i64)
        ensures
            r == self.dc@[quant_row(bit_depth as int)]@[clamp(b as int, 0, 255)],
    {
        self.dc[Self::row(bit_depth)][clamp_i32(b, 0, 255) as usize] as i64
    }

    /// The other coefficients' step at quantiser index `b`, limited to `0..=255`.
    pub fn ac_q(&self, bit_depth: u8, b: i32) -> (r: i64)
        ensures
            r == self.ac@[quant_row(bit_depth as int)]@[clamp(b as int, 0, 255)],
    {
        self.ac[Self::row(bit_depth)][clamp_i32(b, 0, 255) as usize] as i64
    }
}

/// Zero rounds to zero.
proof fn lemma_round2_zero(n: int)
    ensures
        round2(0, n) == 0,
{
    if n > 0 {
        lemma_p2_pos(n - 1);
        lemma_p2_mono(n - 1, n);
        if n > 1 {
            lemma_p2_pos(n - 1);
            assert(p2(n) == 2 * p2(n - 1));
        } else {
            lemma_p2_values();
        }
        let (a, b) = (p2(n - 1), p2(n));
        assert(a / b == 0) by (nonlinear_arith)
            requires
                0 < a < b,
        ;
    }
}

/// Zero coefficients are zero between the passes.
proof fn lemma_zero_between(g: Inverse, d: Cells, y: int, j: int)
    requires
        forall|y: int, x: int| #[trigger] d(y, x) == 0,
        0 <= g.depth <= 16,
        0 <= j < 64,
    ensures
        g.between(d, y, j) == 0,
{
    lemma_round2_zero(12);
    assert(zero(g.row_in(d, y)));
    lemma_transformed_zero(g.row_in(d, y), g.ty.across(), g.size.wlog(), g.depth + 8);
    lemma_walsh_zero(g.row_in(d, y), 2);
    assert(g.row_out(d, y)[j] == 0);
    lemma_round2_zero(TRANSFORM_ROW_SHIFT@[g.size.code()] as int);
    lemma_round2_zero(0);
    lemma_p2_pos(g.range() - 1);
}

/// A block of zero coefficients has a zero residual, whatever its size, its type
/// and the way it is coded.
pub proof fn lemma_zero_residual(g: Inverse, d: Cells, i: int, j: int)
    requires
        forall|y: int, x: int| #[trigger] d(y, x) == 0,
        0 <= g.depth <= 16,
        0 <= i < g.size.h(),
        0 <= j < g.size.w(),
    ensures
        g.residual(d, i, j) == 0,
{
    lemma_p2_values();
    assert forall|y: int| 0 <= y < 64 implies #[trigger] g.between(d, y, j) == 0 by {
        lemma_zero_between(g, d, y, j);
    }
    assert(zero(g.col_in(d, j)));
    lemma_transformed_zero(g.col_in(d, j), g.ty.down(), g.size.hlog(), g.range());
    lemma_walsh_zero(g.col_in(d, j), 0);
}

/// In the lossless path the dequantiser's factor of four and the transform's
/// division by four cancel exactly, as far as the coefficient range goes.
pub proof fn lemma_lossless_exact(level: int, depth: int)
    requires
        8 <= depth <= 16,
        -p2(depth + 5) <= level < p2(depth + 5),
    ensures
        dequantized(level, 4, 1, depth) == 4 * level,
        dequantized(level, 4, 1, depth) / p2(2) == level,
{
    lemma_p2_add(depth + 5, 2);
    lemma_p2_mono(depth + 7, 23);
    lemma_p2_add(20, 3);
    lemma_p2_values();
}

/// Over a uniform prediction, a type that flips the columns gives the vertical
/// mirror image of what it would give without flipping, and likewise for rows.
pub proof fn lemma_flip_mirrors(prediction: Seq<u16>, residual: Residual, ty: TxType, depth: int, i: int, j: int)
    requires
        residual.wf(),
        prediction.len() >= residual.width * residual.height,
        forall|a: int, b: int| 0 <= a < prediction.len() && 0 <= b < prediction.len() ==> prediction[a] == prediction[b],
        0 <= i < residual.height,
        0 <= j < residual.width,
    ensures
        ({
            let (w, h) = (residual.width as int, residual.height as int);
            let y = if ty.flips_down() {
                h - 1 - i
            } else {
                i
            };
            let x = if ty.flips_across() {
                w - 1 - j
            } else {
                j
            };
            reconstructed(prediction, residual, ty, depth)[y * w + x] == reconstructed(
                prediction,
                residual,
                TxType::DctDct,
                depth,
            )[i * w + j]
        }),
{
    let (w, h) = (residual.width as int, residual.height as int);
    let y = if ty.flips_down() {
        h - 1 - i
    } else {
        i
    };
    let x = if ty.flips_across() {
        w - 1 - j
    } else {
        j
    };
    lemma_raster(i, j, w, h);
    lemma_raster(y, x, w, h);
}

/// Where row `i`, column `j` stands in raster order, and back.
pub proof fn lemma_raster(i: int, j: int, w: int, h: int)
    requires
        0 <= i < h,
        0 <= j < w,
    ensures
        0 <= i * w + j < w * h,
        (i * w + j) / w == i,
        (i * w + j) % w == j,
{
    vstd::arithmetic::div_mod::lemma_fundamental_div_mod_converse(i * w + j, w, i, j);
    assert(0 <= i * w + j < w * h) by (nonlinear_arith)
        requires
            0 <= i < h,
            0 <= j < w,
    ;
}

/// One of four values.
pub open spec fn nth(t: (int, int, int, int), i: int) -> int {
    if i == 0 {
        t.0
    } else if i == 1 {
        t.1
    } else if i == 2 {
        t.2
    } else {
        t.3
    }
}

/// The columns of a 4 by 4 block after the forward Walsh-Hadamard transform.
#[verifier::opaque]
pub open spec fn lifted_columns(x: Cells, i: int, j: int) -> int {
    nth(forward_walsh(x(0, j), x(1, j), x(2, j), x(3, j)), i)
}

/// The levels of a 4 by 4 block: the forward Walsh-Hadamard transform of its columns
/// and then of its rows.
#[verifier::opaque]
pub open spec fn lifted(x: Cells, i: int, j: int) -> int {
    nth(
        forward_walsh(
            lifted_columns(x, i, 0),
            lifted_columns(x, i, 1),
            lifted_columns(x, i, 2),
            lifted_columns(x, i, 3),
        ),
        j,
    )
}

/// A forward transform at most doubles what it is given, but for rounding.
proof fn lemma_lifted_bound(x0: int, x1: int, x2: int, x3: int, m: int, i: int)
    requires
        -m <= x0 <= m,
        -m <= x1 <= m,
        -m <= x2 <= m,
        -m <= x3 <= m,
        0 <= i < 4,
    ensures
        -(2 * m + 1) <= nth(forward_walsh(x0, x1, x2, x3), i) <= 2 * m + 1,
{
}

/// The levels of a block are at most four times its samples, but for rounding.
proof fn lemma_levels_bound(x: Cells, m: int, i: int, j: int)
    requires
        0 <= i < 4,
        0 <= j < 4,
        forall|r: int, c: int| 0 <= r < 4 && 0 <= c < 4 ==> -m <= #[trigger] x(r, c) <= m,
    ensures
        forall|c: int| 0 <= c < 4 ==> -(2 * m + 1) <= #[trigger] lifted_columns(x, i, c) <= 2 * m + 1,
        -(4 * m + 3) <= lifted(x, i, j) <= 4 * m + 3,
{
    assert forall|c: int| 0 <= c < 4 implies -(2 * m + 1) <= #[trigger] lifted_columns(x, i, c) <= 2 * m + 1 by {
        reveal(lifted_columns);
        assert(-m <= x(0, c) <= m && -m <= x(1, c) <= m && -m <= x(2, c) <= m && -m <= x(3, c) <= m);
        lemma_lifted_bound(x(0, c), x(1, c), x(2, c), x(3, c), m, i);
    }
    let (a, b, c, e) = (
        lifted_columns(x, i, 0),
        lifted_columns(x, i, 1),
        lifted_columns(x, i, 2),
        lifted_columns(x, i, 3),
    );
    reveal(lifted);
    lemma_lifted_bound(a, b, c, e, 2 * m + 1, j);
}

/// The lossless row pass takes the levels of a row back to what its columns were lifted
/// to.
proof fn lemma_lossless_row(g: Inverse, d: Cells, x: Cells, i: int, m: int)
    requires
        g.size == TxSize::Tx4x4,
        g.lossless,
        8 <= g.depth <= 16,
        0 <= i < 4,
        0 <= m < p2(g.depth),
        forall|r: int, c: int| 0 <= r < 4 && 0 <= c < 4 ==> -m <= #[trigger] x(r, c) <= m,
        forall|r: int, c: int| 0 <= r < 4 && 0 <= c < 4 ==> #[trigger] d(r, c) == 4 * lifted(x, r, c),
    ensures
        forall|j: int| 0 <= j < 4 ==> #[trigger] g.between(d, i, j) == lifted_columns(x, i, j),
{
    lemma_p2_values();
    lemma_p2_mono(g.depth, 16);
    lemma_p2_add(g.depth, 2);
    lemma_p2_mono(g.depth + 2, g.range() - 1);
    let t = g.row_in(d, i);
    let u = Seq::new(64, |j: int| if 0 <= j < 4 { lifted(x, i, j) as i64 } else { 0i64 });
    let (a, b, c, e) = (
        lifted_columns(x, i, 0),
        lifted_columns(x, i, 1),
        lifted_columns(x, i, 2),
        lifted_columns(x, i, 3),
    );
    assert forall|j: int| 0 <= j < 4 implies #[trigger] u[j] == lifted(x, i, j) && t[j] == 4 * lifted(x, i, j) by {
        lemma_levels_bound(x, m, i, j);
        assert(d(i, j) == 4 * lifted(x, i, j));
    }
    lemma_levels_bound(x, m, i, 0);
    assert forall|j: int| 0 <= j < 4 implies u[j] * p2(2) <= #[trigger] t[j] < u[j] * p2(2) + p2(2) by {
        assert(u[j] == lifted(x, i, j));
    }
    assert(u[0] == nth(forward_walsh(a, b, c, e), 0) && u[1] == nth(forward_walsh(a, b, c, e), 1) && u[2] == nth(
        forward_walsh(a, b, c, e),
        2,
    ) && u[3] == nth(forward_walsh(a, b, c, e), 3)) by {
        reveal(lifted);
    }
    lemma_walsh_shift(t, u, 2);
    lemma_walsh_undoes(u, a, b, c, e);
    let w = walsh(u, 0);
    assert forall|j: int| 0 <= j < 4 implies #[trigger] g.between(d, i, j) == lifted_columns(x, i, j) by {
        assert(walsh(t, 2)[j] == w[j]);
        assert(w[j] == lifted_columns(x, i, j));
    }
}

/// The lossless column pass takes a lifted column back to the column.
proof fn lemma_lossless_column(g: Inverse, d: Cells, x: Cells, i: int, j: int, m: int)
    requires
        g.size == TxSize::Tx4x4,
        g.lossless,
        0 <= i < 4,
        0 <= j < 4,
        0 <= m < 0x1_0000,
        forall|r: int, c: int| 0 <= r < 4 && 0 <= c < 4 ==> -m <= #[trigger] x(r, c) <= m,
        forall|r: int| 0 <= r < 4 ==> #[trigger] g.between(d, r, j) == lifted_columns(x, r, j),
    ensures
        g.residual(d, i, j) == x(i, j),
{
    let t = g.col_in(d, j);
    let (a, b, c, e) = (x(0, j), x(1, j), x(2, j), x(3, j));
    assert(-m <= a <= m && -m <= b <= m && -m <= c <= m && -m <= e <= m);
    let f = forward_walsh(a, b, c, e);
    assert(g.size.h() == 4) by {
        lemma_p2_values();
    }
    assert forall|r: int| 0 <= r < 4 implies #[trigger] t[r] == nth(f, r) by {
        assert(g.between(d, r, j) == lifted_columns(x, r, j));
        assert(lifted_columns(x, r, j) == nth(f, r)) by {
            reveal(lifted_columns);
        }
        lemma_lifted_bound(a, b, c, e, m, r);
        assert(t[r] == g.between(d, r, j) as i64);
    }
    assert(t[0] == nth(f, 0) && t[1] == nth(f, 1) && t[2] == nth(f, 2) && t[3] == nth(f, 3));
    lemma_walsh_undoes(t, a, b, c, e);
    let w = walsh(t, 0);
    assert(w[i] == x(i, j));
    assert(g.col_out(d, j) == w);
}

/// The lossless transform is exact: of the levels that a residual of the sample range
/// is lifted to, dequantised by four, it gives that residual back at every place.
pub proof fn lemma_lossless_residual(g: Inverse, d: Cells, x: Cells, m: int)
    requires
        g.size == TxSize::Tx4x4,
        g.lossless,
        8 <= g.depth <= 16,
        0 <= m < p2(g.depth),
        forall|r: int, c: int| 0 <= r < 4 && 0 <= c < 4 ==> -m <= #[trigger] x(r, c) <= m,
        forall|r: int, c: int| 0 <= r < 4 && 0 <= c < 4 ==> #[trigger] d(r, c) == 4 * lifted(x, r, c),
    ensures
        forall|i: int, j: int| 0 <= i < 4 && 0 <= j < 4 ==> #[trigger] g.residual(d, i, j) == x(i, j),
{
    lemma_p2_values();
    lemma_p2_mono(g.depth, 16);
    assert forall|i: int, j: int| 0 <= i < 4 && 0 <= j < 4 implies #[trigger] g.residual(d, i, j) == x(i, j) by {
        assert forall|r: int| 0 <= r < 4 implies #[trigger] g.between(d, r, j) == lifted_columns(x, r, j) by {
            lemma_lossless_row(g, d, x, r, m);
        }
        lemma_lossless_column(g, d, x, i, j, m);
    }
}

/// A level that is lifted from samples is dequantised to four times itself.
proof fn lemma_lifted_dequantized(quant: Seq<i32>, x: Cells, depth: int, m: int, i: int, j: int)
    requires
        8 <= depth <= 16,
        m == p2(depth) - 1,
        quant.len() == 16,
        0 <= i < 4,
        0 <= j < 4,
        quant[4 * i + j] == lifted(x, i, j),
        forall|r: int, c: int| 0 <= r < 4 && 0 <= c < 4 ==> -m <= #[trigger] x(r, c) <= m,
    ensures
        dequantized_cells(quant, TxSize::Tx4x4, 4, 4, depth)(i, j) == 4 * lifted(x, i, j),
{
    lemma_levels_bound(x, m, i, j);
    lemma_p2_add(depth, 5);
    lemma_p2_pos(depth);
    lemma_p2_values();
    lemma_lossless_exact(lifted(x, i, j), depth);
    assert(level_at(quant, i * 4 + j) == lifted(x, i, j));
}

/// A block is rebuilt to its prediction plus its residual.
proof fn lemma_rebuilt_sample(prediction: Seq<u16>, g: Inverse, d: Cells, k: int, v: int)
    requires
        g.size == TxSize::Tx4x4,
        g.ty == TxType::DctDct,
        prediction.len() == 16,
        0 <= k < 16,
        g.residual(d, k / 4, k % 4) == v,
        -0x1_0000 <= v <= 0x1_0000,
        0 <= prediction[k] + v < p2(g.depth) <= 0x1_0000,
    ensures
        rebuilt(prediction, g, d)[k] == prediction[k] + v,
{
    assert(g.size.w() == 4 && g.size.h() == 4) by {
        lemma_p2_values();
    }
}

/// Lossless coding loses nothing: a 4 by 4 block whose levels are the forward transform
/// of what its samples differ from their prediction is rebuilt to exactly those samples.
pub proof fn lemma_lossless_round_trip(prediction: Seq<u16>, samples: Seq<u16>, quant: Seq<i32>, depth: int)
    requires
        8 <= depth <= 16,
        prediction.len() == 16,
        samples.len() == 16,
        under(prediction, p2(depth)),
        under(samples, p2(depth)),
        quant.len() == 16,
        forall|i: int, j: int|
            0 <= i < 4 && 0 <= j < 4 ==> #[trigger] quant[4 * i + j] == lifted(
                |r: int, c: int| samples[4 * r + c] - prediction[4 * r + c],
                i,
                j,
            ),
    ensures
        rebuilt(
            prediction,
            (Inverse { size: TxSize::Tx4x4, ty: TxType::DctDct, lossless: true, depth }),
            dequantized_cells(quant, TxSize::Tx4x4, 4, 4, depth),
        ) == samples,
{
    let g = Inverse { size: TxSize::Tx4x4, ty: TxType::DctDct, lossless: true, depth };
    let d = dequantized_cells(quant, TxSize::Tx4x4, 4, 4, depth);
    let x = |r: int, c: int| samples[4 * r + c] - prediction[4 * r + c];
    let m = p2(depth) - 1;
    assert(0 < p2(depth) <= 0x1_0000) by {
        lemma_p2_values();
        lemma_p2_mono(depth, 16);
        lemma_p2_pos(depth);
    }
    assert forall|r: int, c: int| 0 <= r < 4 && 0 <= c < 4 implies -m <= #[trigger] x(r, c) <= m by {
        assert(samples[4 * r + c] < p2(depth));
        assert(prediction[4 * r + c] < p2(depth));
    }
    assert forall|r: int, c: int| 0 <= r < 4 && 0 <= c < 4 implies #[trigger] d(r, c) == 4 * lifted(x, r, c) by {
        assert(quant[4 * r + c] == lifted(x, r, c));
        lemma_lifted_dequantized(quant, x, depth, m, r, c);
    }
    lemma_lossless_residual(g, d, x, m);
    let out = rebuilt(prediction, g, d);
    assert forall|k: int| 0 <= k < 16 implies #[trigger] out[k] == samples[k] by {
        let (i, j) = (k / 4, k % 4);
        assert(4 * i + j == k);
        assert(g.residual(d, i, j) == x(i, j));
        assert(x(i, j) == samples[k] - prediction[k]);
        assert(samples[k] < p2(depth));
        assert(prediction[k] < p2(depth));
        lemma_rebuilt_sample(prediction, g, d, k, x(i, j));
    }
    assert(out =~= samples);
}

} // verus!
