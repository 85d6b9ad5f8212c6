//! Intra prediction without edge filtering.
//!
//! An intra block is predicted from the reconstructed samples in the row above
//! and the column to its left. The predictors here take those neighbours ready
//! assembled: the average, the Paeth predictor, the three smooth blends, and the
//! copies of the row above and of the column to the left.

use crate::error::{ErrorCode, Outcome, PixelsError, fails_saying};
use crate::math::{abs, clamp, clamp_i32, lemma_p2_mono, lemma_p2_pos, lemma_p2_values, p2, pow2_i32, round2};
use vstd::prelude::*;

verus! {

/// The blending weights of a side of 4.
pub const SM_WEIGHTS_4: [i32; 4] = [255, 149, 85, 64];

/// The blending weights of a side of 8.
pub const SM_WEIGHTS_8: [i32; 8] = [255, 197, 146, 105, 73, 50, 37, 32];

/// The blending weights of a side of 16.
pub const SM_WEIGHTS_16: [i32; 16] = [255, 225, 196, 170, 145, 123, 102, 84, 68, 54, 43, 33, 26, 20, 17, 16];

/// The blending weights of a side of 32.
pub const SM_WEIGHTS_32: [i32; 32] = [
    255, 240, 225, 210, 196, 182, 169, 157, 145, 133, 122, 111, 101, 92, 83, 74, 66, 59, 52, 45, 39, 34, 29, 25, 21, 17,
    14, 12, 10, 9, 8, 8,
];

/// The blending weights of a side of 64.
pub const SM_WEIGHTS_64: [i32; 64] = [
    255, 248, 240, 233, 225, 218, 210, 203, 196, 189, 182, 176, 169, 163, 156, 150, 144, 138, 133, 127, 121, 116, 111,
    106, 101, 96, 91, 86, 82, 77, 73, 69, 65, 61, 57, 54, 50, 47, 44, 41, 38, 35, 32, 29, 27, 25, 22, 20, 18, 16, 15,
    13, 12, 10, 9, 8, 7, 6, 6, 5, 5, 4, 4, 4,
];

/// The weight at place `i` of a side of `dim`; a side of another length uses the
/// weights of 4, and 0 past their end.
pub open spec fn weight(dim: int, i: int) -> int {
    if dim == 8 {
        SM_WEIGHTS_8@[i] as int
    } else if dim == 16 {
        SM_WEIGHTS_16@[i] as int
    } else if dim == 32 {
        SM_WEIGHTS_32@[i] as int
    } else if dim == 64 {
        SM_WEIGHTS_64@[i] as int
    } else if i < 4 {
        SM_WEIGHTS_4@[i] as int
    } else {
        0
    }
}

/// The weight at place `i` of a side of `dim`.
fn sm_weight(dim: usize, i: usize) -> (r: i32)
    requires
        i < dim,
    ensures
        r == weight(dim as int, i as int),
        0 <= r <= 256,
{
    if dim == 8 {
        SM_WEIGHTS_8[i]
    } else if dim == 16 {
        SM_WEIGHTS_16[i]
    } else if dim == 32 {
        SM_WEIGHTS_32[i]
    } else if dim == 64 {
        SM_WEIGHTS_64[i]
    } else if i < 4 {
        SM_WEIGHTS_4[i]
    } else {
        0
    }
}

/// The intra prediction modes, in their coded order.
#[derive(Debug, Clone, Copy, PartialEq, Eq, Structural)]
pub enum IntraMode {
    /// The average of the neighbours.
    Dc,
    /// A copy of the row above.
    V,
    /// A copy of the column to the left.
    H,
    /// Directional, 45 degrees.
    D45,
    /// Directional, 135 degrees.
    D135,
    /// Directional, 113 degrees.
    D113,
    /// Directional, 157 degrees.
    D157,
    /// Directional, 203 degrees.
    D203,
    /// Directional, 67 degrees.
    D67,
    /// Blended in both directions.
    Smooth,
    /// Blended vertically.
    SmoothV,
    /// Blended horizontally.
    SmoothH,
    /// The neighbour nearest to the plane through the corner.
    Paeth,
}

impl IntraMode {
    /// The coded index of the mode.
    pub open spec fn code(self) -> int {
        match self {
            IntraMode::Dc => 0,
            IntraMode::V => 1,
            IntraMode::H => 2,
            IntraMode::D45 => 3,
            IntraMode::D135 => 4,
            IntraMode::D113 => 5,
            IntraMode::D157 => 6,
            IntraMode::D203 => 7,
            IntraMode::D67 => 8,
            IntraMode::Smooth => 9,
            IntraMode::SmoothV => 10,
            IntraMode::SmoothH => 11,
            IntraMode::Paeth => 12,
        }
    }

    /// Whether the mode is directional but follows neither axis.
    pub open spec fn slanted(self) -> bool {
        3 <= self.code() <= 8
    }

    /// The mode with a coded index, if there is one.
    pub fn from_index(index: u8) -> (r: Option<IntraMode>)
        ensures
            r is Some <==> index < 13,
            r is Some ==> r->0.code() == index,
    {
        match index {
            0 => Some(IntraMode::Dc),
            1 => Some(IntraMode::V),
            2 => Some(IntraMode::H),
            3 => Some(IntraMode::D45),
            4 => Some(IntraMode::D135),
            5 => Some(IntraMode::D113),
            6 => Some(IntraMode::D157),
            7 => Some(IntraMode::D203),
            8 => Some(IntraMode::D67),
            9 => Some(IntraMode::Smooth),
            10 => Some(IntraMode::SmoothV),
            11 => Some(IntraMode::SmoothH),
            12 => Some(IntraMode::Paeth),
            _ => None,
        }
    }

    /// Whether the mode is one of the eight directional ones.
    pub fn is_directional(self) -> (r: bool)
        ensures
            r == (1 <= self.code() <= 8),
    {
        match self {
            IntraMode::V
            | IntraMode::H
            | IntraMode::D45
            | IntraMode::D135
            | IntraMode::D113
            | IntraMode::D157
            | IntraMode::D203
            | IntraMode::D67 => true,
            _ => false,
        }
    }
}

/// The neighbours of a 4 by 4 block.
#[derive(Debug, Clone, Copy)]
pub struct Neighbours {
    /// The row above.
    pub above: [i32; 8],
    /// The column to the left.
    pub left: [i32; 8],
    /// The sample above the column and left of the row.
    pub corner: i32,
    /// Whether the row above is reconstructed.
    pub have_above: bool,
    /// Whether the column to the left is reconstructed.
    pub have_left: bool,
}

/// A block's neighbours and its size. `above` holds at least `w` samples and
/// `left` at least `h`; missing ones count as zero.
#[derive(Debug, Clone, Copy)]
pub struct PredBlock<'a> {
    /// The row above.
    pub above: &'a [i32],
    /// The column to the left.
    pub left: &'a [i32],
    /// The sample above the column and left of the row.
    pub corner: i32,
    /// Whether the row above is reconstructed.
    pub have_above: bool,
    /// Whether the column to the left is reconstructed.
    pub have_left: bool,
    /// The width in samples.
    pub w: usize,
    /// The height in samples.
    pub h: usize,
}

/// What a block's neighbours and its size are.
#[verifier::ext_equal]
pub struct Around {
    /// The row above.
    pub above: Seq<i32>,
    /// The column to the left.
    pub left: Seq<i32>,
    /// The sample above the column and left of the row.
    pub corner: int,
    /// Whether the row above is reconstructed.
    pub have_above: bool,
    /// Whether the column to the left is reconstructed.
    pub have_left: bool,
    /// The width in samples.
    pub w: int,
    /// The height in samples.
    pub h: int,
}

impl Neighbours {
    /// What the neighbours of a 4 by 4 block are.
    pub open spec fn around(&self) -> Around {
        Around {
            above: self.above@,
            left: self.left@,
            corner: self.corner as int,
            have_above: self.have_above,
            have_left: self.have_left,
            w: 4,
            h: 4,
        }
    }
}

impl<'a> View for PredBlock<'a> {
    type V = Around;

    open spec fn view(&self) -> Around {
        Around {
            above: self.above@,
            left: self.left@,
            corner: self.corner as int,
            have_above: self.have_above,
            have_left: self.have_left,
            w: self.w as int,
            h: self.h as int,
        }
    }
}

/// A neighbour, zero past the end.
pub open spec fn edge(s: Seq<i32>, i: int) -> int {
    if i < s.len() {
        s[i] as int
    } else {
        0
    }
}

/// The sum of the first `n` neighbours.
pub open spec fn edge_sum(s: Seq<i32>, n: int) -> int
    decreases n,
{
    if n <= 0 {
        0
    } else {
        edge_sum(s, n - 1) + edge(s, n - 1)
    }
}

/// How many times two divides `n`.
pub open spec fn twos(n: int) -> int
    decreases n,
{
    if n > 0 && n % 2 == 0 {
        1 + twos(n / 2)
    } else {
        0
    }
}

/// Every neighbour is a sample.
pub open spec fn sampled(s: Seq<i32>) -> bool {
    forall|i: int| 0 <= i < s.len() ==> 0 <= #[trigger] s[i] <= 0xFFFF
}

impl<'a> PredBlock<'a> {
    /// The neighbours are samples, and memory has room for the block.
    pub open spec fn wf(&self) -> bool {
        &&& sampled(self.above@)
        &&& sampled(self.left@)
        &&& 0 <= self.corner <= 0xFFFF
        &&& 2 * (self.w * self.h) <= isize::MAX
    }

    /// Whether an average can be taken: a machine integer holds the sums of the
    /// neighbours, and there is something to average over.
    pub open spec fn averages(&self) -> bool {
        let (a, l) = (edge_sum(self.above@, self.w as int), edge_sum(self.left@, self.h as int));
        &&& a <= i32::MAX
        &&& l <= i32::MAX
        &&& self.have_left && self.have_above ==> 1 <= self.w + self.h <= i32::MAX && l + a + (self.w + self.h) / 2
            <= i32::MAX
        &&& self.have_left && !self.have_above ==> 1 <= self.h && l + self.h as int / 2 <= i32::MAX
        &&& !self.have_left && self.have_above ==> 1 <= self.w && a + self.w as int / 2 <= i32::MAX
    }

    /// Whether the block has what a mode reads: an average needs neighbours to average
    /// over, and a blend needs a last neighbour.
    pub open spec fn suits(&self, mode: IntraMode) -> bool {
        match mode {
            IntraMode::Dc => self.averages(),
            IntraMode::Smooth => 1 <= self.w && 1 <= self.h,
            IntraMode::SmoothV => 1 <= self.h,
            IntraMode::SmoothH => 1 <= self.w,
            _ => true,
        }
    }
}

/// A sum of `n` samples is at most `n` times the greatest, and grows with `n`.
pub proof fn lemma_edge_sum(s: Seq<i32>, n: int)
    requires
        sampled(s),
        n >= 0,
    ensures
        0 <= edge_sum(s, n) <= 0xFFFF * n,
        n > 0 ==> edge_sum(s, n - 1) <= edge_sum(s, n),
    decreases n,
{
    if n > 0 {
        lemma_edge_sum(s, n - 1);
        if n - 1 < s.len() {
            assert(0 <= s[n - 1] <= 0xFFFF);
        }
    }
}

/// A longer sum of samples is no less.
proof fn lemma_edge_sum_grows(s: Seq<i32>, m: int, n: int)
    requires
        sampled(s),
        0 <= m <= n,
    ensures
        edge_sum(s, m) <= edge_sum(s, n),
        m >= s.len() ==> edge_sum(s, m) == edge_sum(s, n),
    decreases n - m,
{
    if m < n {
        lemma_edge_sum(s, n);
        lemma_edge_sum_grows(s, m, n - 1);
    }
}

impl<'a> PredBlock<'a> {
    /// A block of some samples suits every mode, as long as it is not huge.
    pub proof fn lemma_suits(&self, mode: IntraMode)
        requires
            self.wf(),
            1 <= self.w,
            1 <= self.h,
            self.w + self.h <= 0x8000,
        ensures
            self.suits(mode),
    {
        lemma_edge_sum(self.above@, self.w as int);
        lemma_edge_sum(self.left@, self.h as int);
    }
}

/// The average of the neighbours there are, or the middle of the range.
pub open spec fn average(b: Around, depth: int) -> int {
    let (w, h) = (b.w, b.h);
    let (a, l) = (edge_sum(b.above, w), edge_sum(b.left, h));
    let top = p2(depth) - 1;
    if b.have_left && b.have_above {
        (l + a + (w + h) / 2) / (w + h)
    } else if b.have_left {
        clamp((l + h / 2) / p2(twos(h)), 0, top)
    } else if b.have_above {
        clamp((a + w / 2) / p2(twos(w)), 0, top)
    } else {
        p2(depth - 1)
    }
}

/// Of the left, the upper and the corner neighbour, the one nearest to
/// `left + above - corner`; the earlier of two equally near.
pub open spec fn paeth(left: int, above: int, corner: int) -> int {
    let base = above + left - corner;
    let (from_left, from_above, from_corner) = (abs(base - left), abs(base - above), abs(base - corner));
    if from_left <= from_above && from_left <= from_corner {
        left
    } else if from_above <= from_corner {
        above
    } else {
        corner
    }
}

/// The predicted sample at row `i`, column `j`.
pub open spec fn predicted(mode: IntraMode, b: Around, depth: int, i: int, j: int) -> int {
    let (w, h) = (b.w, b.h);
    let top = p2(depth) - 1;
    let (a, l) = (edge(b.above, j), edge(b.left, i));
    let (below, right) = (edge(b.left, h - 1), edge(b.above, w - 1));
    match mode {
        IntraMode::Dc => average(b, depth),
        IntraMode::V => clamp(a, 0, top),
        IntraMode::H => clamp(l, 0, top),
        IntraMode::Paeth => clamp(paeth(l, a, b.corner), 0, top),
        IntraMode::Smooth => clamp(
            round2(
                weight(h, i) * a + (256 - weight(h, i)) * below + weight(w, j) * l + (256 - weight(w, j)) * right,
                9,
            ),
            0,
            top,
        ),
        IntraMode::SmoothV => clamp(round2(weight(h, i) * a + (256 - weight(h, i)) * below, 8), 0, top),
        IntraMode::SmoothH => clamp(round2(weight(w, j) * l + (256 - weight(w, j)) * right, 8), 0, top),
        _ => 0,
    }
}

/// A neighbour, zero past the end.
fn edge_at(s: &[i32], i: usize) -> (r: i32)
    requires
        sampled(s@),
    ensures
        r == edge(s@, i as int),
        0 <= r <= 0xFFFF,
{
    if i < s.len() {
        let v = s[i];
        assert(0 <= s@[i as int] <= 0xFFFF);
        v
    } else {
        0
    }
}

/// The sum of the first `n` neighbours.
fn sum_of(s: &[i32], n: usize) -> (r: i32)
    requires
        sampled(s@),
        edge_sum(s@, n as int) <= i32::MAX,
    ensures
        r == edge_sum(s@, n as int),
        0 <= r <= 0xFFFF * n,
{
    let count = if n < s.len() {
        n
    } else {
        s.len()
    };
    let mut sum: i32 = 0;
    let mut i: usize = 0;
    while i < count
        invariant
            i <= count <= n,
            sampled(s@),
            sum == edge_sum(s@, i as int),
            0 <= sum,
            edge_sum(s@, n as int) <= i32::MAX,
        decreases count - i,
    {
        proof {
            lemma_edge_sum_grows(s@, i + 1, n as int);
        }
        sum = sum + edge_at(s, i);
        i = i + 1;
    }
    proof {
        lemma_edge_sum_grows(s@, count as int, n as int);
        lemma_edge_sum(s@, n as int);
    }
    sum
}

/// How many times two divides `n`.
fn trailing_zeros(n: usize) -> (r: u32)
    requires
        1 <= n < 0x1_0000_0000,
    ensures
        r == twos(n as int),
        r <= 31,
{
    let mut rest = n;
    let mut count: u32 = 0;
    proof {
        lemma_p2_values();
    }
    while rest % 2 == 0
        invariant
            1 <= rest,
            count + twos(rest as int) == twos(n as int),
            rest * p2(count as int) < 0x1_0000_0000,
        decreases rest,
    {
        proof {
            assert(rest / 2 * p2(count + 1) < 0x1_0000_0000) by (nonlinear_arith)
                requires
                    rest * p2(count as int) < 0x1_0000_0000,
                    p2(count + 1) == 2 * p2(count as int),
                    rest % 2 == 0,
            ;
            lemma_small_power(rest as int, count as int);
        }
        rest = rest / 2;
        count = count + 1;
    }
    proof {
        lemma_small_power(rest as int, count as int);
    }
    count
}

/// A power of two that divides a number of 32 bits is one of 32 bits.
proof fn lemma_small_power(rest: int, count: int)
    requires
        1 <= rest,
        0 <= count,
        rest * p2(count) < 0x1_0000_0000,
    ensures
        count <= 31,
{
    lemma_p2_pos(count);
    assert(p2(count) < 0x1_0000_0000) by (nonlinear_arith)
        requires
            1 <= rest,
            rest * p2(count) < 0x1_0000_0000,
            p2(count) >= 0,
    ;
    if count > 31 {
        lemma_p2_mono(32, count);
        lemma_p2_values();
    }
}

/// The average of the neighbours.
fn dc_value(b: &PredBlock<'_>, bit_depth: u8) -> (r: u16)
    requires
        b.wf(),
        b.suits(IntraMode::Dc),
        1 <= bit_depth <= 16,
    ensures
        r == average(b@, bit_depth as int),
{
    let w = b.w;
    let h = b.h;
    let left_sum = sum_of(b.left, h);
    let above_sum = sum_of(b.above, w);
    proof {
        lemma_p2_values();
        lemma_p2_mono(bit_depth as int, 16);
        lemma_p2_mono(bit_depth - 1, 15);
        lemma_p2_pos(bit_depth as int);
        lemma_p2_pos(bit_depth - 1);
    }
    let top = pow2_i32(bit_depth as u32) - 1;
    if b.have_left && b.have_above {
        let sum = left_sum + above_sum + ((w + h) / 2) as i32;
        let n = (w + h) as i32;
        proof {
            assert(0 <= sum as int / n as int <= 0xFFFF) by (nonlinear_arith)
                requires
                    0 <= sum < 0x1_0000 * n,
                    n > 0,
            ;
        }
        (sum / n) as u16
    } else if b.have_left {
        let k = trailing_zeros(h);
        clamp_i32(crate::math::shr_i32(left_sum + (h / 2) as i32, k), 0, top) as u16
    } else if b.have_above {
        let k = trailing_zeros(w);
        clamp_i32(crate::math::shr_i32(above_sum + (w / 2) as i32, k), 0, top) as u16
    } else {
        pow2_i32(bit_depth as u32 - 1) as u16
    }
}

/// `x / 2^n`, rounded half up, for a blend.
fn blended(x: i32, n: u32) -> (r: i32)
    requires
        1 <= n <= 9,
        0 <= x <= 0x4000_0000,
    ensures
        r == round2(x as int, n as int),
{
    proof {
        lemma_p2_values();
        lemma_p2_mono(n - 1, 8);
        lemma_p2_pos(n - 1);
    }
    crate::math::shr_i32(x + pow2_i32(n - 1), n)
}

/// A blend of two samples.
fn blend(weight: i32, a: i32, b: i32) -> (r: i32)
    requires
        0 <= weight <= 256,
        0 <= a <= 0xFFFF,
        0 <= b <= 0xFFFF,
    ensures
        r == weight * a + (256 - weight) * b,
        0 <= r <= 256 * 0xFFFF,
{
    proof {
        assert(0 <= weight * a <= weight * 0xFFFF) by (nonlinear_arith)
            requires
                0 <= weight,
                0 <= a <= 0xFFFF,
        ;
        assert(0 <= (256 - weight) * b <= (256 - weight) * 0xFFFF) by (nonlinear_arith)
            requires
                0 <= 256 - weight,
                0 <= b <= 0xFFFF,
        ;
    }
    weight * a + (256 - weight) * b
}

/// One predicted sample of a mode that copies or blends.
fn predict_sample(mode: IntraMode, b: &PredBlock<'_>, top: i32, i: usize, j: usize, Ghost(depth): Ghost<int>) -> (r: u16)
    requires
        b.wf(),
        top == p2(depth) - 1,
        0 <= top <= 0xFFFF,
        i < b.h,
        j < b.w,
        mode != IntraMode::Dc,
        !mode.slanted(),
    ensures
        r == predicted(mode, b@, depth, i as int, j as int),
{
    let a = edge_at(b.above, j);
    let l = edge_at(b.left, i);
    let below = edge_at(b.left, b.h - 1);
    let right = edge_at(b.above, b.w - 1);
    let v = match mode {
        IntraMode::V => a,
        IntraMode::H => l,
        IntraMode::Paeth => {
            let base = a + l - b.corner;
            let from_left = crate::math::abs_i32(base - l);
            let from_above = crate::math::abs_i32(base - a);
            let from_corner = crate::math::abs_i32(base - b.corner);
            if from_left <= from_above && from_left <= from_corner {
                l
            } else if from_above <= from_corner {
                a
            } else {
                b.corner
            }
        },
        IntraMode::Smooth => blended(
            blend(sm_weight(b.h, i), a, below) + blend(sm_weight(b.w, j), l, right),
            9,
        ),
        IntraMode::SmoothV => blended(blend(sm_weight(b.h, i), a, below), 8),
        _ => blended(blend(sm_weight(b.w, j), l, right), 8),
    };
    clamp_i32(v, 0, top) as u16
}

/// The words of a mode that needs edge filtering.
pub open spec fn slanted_fault() -> Seq<char> {
    "avif: slanted directional intra prediction is not implemented yet"@
}

/// Predict a block in a mode that needs no edge filtering, row by row. The
/// slanted directional modes are unsupported here.
pub fn predict_intra_block(mode: IntraMode, b: &PredBlock<'_>, bit_depth: u8) -> (r: Outcome<Vec<u16>>)
    requires
        b.wf(),
        b.suits(mode),
        1 <= bit_depth <= 16,
    ensures
        r is Ok <==> !mode.slanted(),
        r is Err ==> fails_saying(r, ErrorCode::Unsupported, slanted_fault()),
        r is Ok ==> r->Ok_0@.len() == b.w * b.h && forall|k: int|
            0 <= k < b.w * b.h ==> #[trigger] r->Ok_0@[k] == predicted(
                mode,
                b@,
                bit_depth as int,
                k / b.w as int,
                k % b.w as int,
            ),
{
    match mode {
        IntraMode::D45
        | IntraMode::D135
        | IntraMode::D113
        | IntraMode::D157
        | IntraMode::D203
        | IntraMode::D67 => {
            return Err(
                PixelsError::unsupported("avif: slanted directional intra prediction is not implemented yet"),
            );
        },
        _ => {},
    }
    let w = b.w;
    let h = b.h;
    proof {
        lemma_p2_values();
        lemma_p2_mono(bit_depth as int, 16);
        lemma_p2_pos(bit_depth as int);
        assert(0 <= w * h) by (nonlinear_arith);
    }
    let top = pow2_i32(bit_depth as u32) - 1;
    let area = w * h;
    let mut pred: Vec<u16> = Vec::new();
    let dc: u16 = if mode == IntraMode::Dc {
        dc_value(b, bit_depth)
    } else {
        0
    };
    let mut k: usize = 0;
    while k < area
        invariant
            k <= area,
            area == w * h,
            w == b.w,
            h == b.h,
            b.wf(),
            top == p2(bit_depth as int) - 1,
            0 <= top <= 0xFFFF,
            !mode.slanted(),
            mode == IntraMode::Dc ==> dc == average(b@, bit_depth as int),
            pred@.len() == k,
            forall|n: int|
                0 <= n < k ==> #[trigger] pred@[n] == predicted(mode, b@, bit_depth as int, n / w as int, n % w as int),
        decreases area - k,
    {
        proof {
            assert(w > 0 && 0 <= k / w < h && 0 <= k % w < w) by (nonlinear_arith)
                requires
                    0 <= k < w * h,
                    w >= 0,
            ;
        }
        let v = if mode == IntraMode::Dc {
            dc
        } else {
            predict_sample(mode, b, top, k / w, k % w, Ghost(bit_depth as int))
        };
        pred.push(v);
        k = k + 1;
    }
    Ok(pred)
}

/// Sixteen samples, row by row, as four rows.
pub fn square(flat: &Vec<u16>) -> (r: [[u16; 4]; 4])
    requires
        flat@.len() == 16,
    ensures
        forall|i: int, j: int| 0 <= i < 4 && 0 <= j < 4 ==> #[trigger] r@[i]@[j] == flat@[4 * i + j],
{
    [
        [flat[0], flat[1], flat[2], flat[3]],
        [flat[4], flat[5], flat[6], flat[7]],
        [flat[8], flat[9], flat[10], flat[11]],
        [flat[12], flat[13], flat[14], flat[15]],
    ]
}

/// Predict a 4 by 4 block in a mode that needs no edge filtering.
pub fn predict_intra_4x4(mode: IntraMode, n: &Neighbours, bit_depth: u8) -> (r: Outcome<[[u16; 4]; 4]>)
    requires
        sampled(n.above@),
        sampled(n.left@),
        0 <= n.corner <= 0xFFFF,
        1 <= bit_depth <= 16,
    ensures
        r is Ok <==> !mode.slanted(),
        r is Err ==> fails_saying(r, ErrorCode::Unsupported, slanted_fault()),
        r is Ok ==> forall|i: int, j: int|
            0 <= i < 4 && 0 <= j < 4 ==> #[trigger] r->Ok_0@[i]@[j] == predicted(
                mode,
                n.around(),
                bit_depth as int,
                i,
                j,
            ),
{
    let block = PredBlock {
        above: &n.above,
        left: &n.left,
        corner: n.corner,
        have_above: n.have_above,
        have_left: n.have_left,
        w: 4,
        h: 4,
    };
    proof {
        assert(block.w * block.h == 16);
        block.lemma_suits(mode);
    }
    let flat = predict_intra_block(mode, &block, bit_depth)?;
    proof {
        let (w, h) = (block.w as int, block.h as int);
        assert(w * h == 16) by (nonlinear_arith)
            requires
                w == 4,
                h == 4,
        ;
        assert forall|k: int| 0 <= k < 16 implies #[trigger] flat@[k] == predicted(
            mode,
            block@,
            bit_depth as int,
            k / 4,
            k % 4,
        ) by {
            assert(k / w == k / 4 && k % w == k % 4);
        }
    }
    let pred = square(&flat);
    assert(block@ =~= n.around());
    assert forall|i: int, j: int| 0 <= i < 4 && 0 <= j < 4 implies #[trigger] pred@[i]@[j] == predicted(
        mode,
        n.around(),
        bit_depth as int,
        i,
        j,
    ) by {
        assert((4 * i + j) / 4 == i && (4 * i + j) % 4 == j);
        assert(flat@[4 * i + j] == predicted(mode, block@, bit_depth as int, i, j));
    }
    Ok(pred)
}

/// Where all the neighbours hold one value, so does their sum's share of each.
proof fn lemma_flat_sum(s: Seq<i32>, n: int, v: int)
    requires
        0 <= n <= s.len(),
        forall|i: int| 0 <= i < s.len() ==> #[trigger] s[i] == v,
    ensures
        edge_sum(s, n) == n * v,
    decreases n,
{
    if n > 0 {
        lemma_flat_sum(s, n - 1, v);
        assert(edge(s, n - 1) == v);
        assert((n - 1) * v + v == n * v) by (nonlinear_arith);
    } else {
        assert(n * v == 0) by (nonlinear_arith)
            requires
                n == 0,
        ;
    }
}

/// From neighbours that all hold one value, every mode predicts that value.
pub proof fn lemma_flat_edges(mode: IntraMode, b: Around, depth: int, i: int, j: int, v: int)
    requires
        1 <= b.w,
        1 <= b.h,
        !mode.slanted(),
        1 <= depth <= 16,
        0 <= v < p2(depth),
        b.above.len() >= b.w,
        b.left.len() >= b.h,
        forall|k: int| 0 <= k < b.above.len() ==> #[trigger] b.above[k] == v,
        forall|k: int| 0 <= k < b.left.len() ==> #[trigger] b.left[k] == v,
        b.corner == v,
        b.have_above,
        b.have_left,
        0 <= i < b.h,
        0 <= j < b.w,
    ensures
        predicted(mode, b, depth, i, j) == v,
{
    let (w, h) = (b.w, b.h);
    lemma_p2_values();
    assert(edge(b.above, j) == v && edge(b.left, i) == v && edge(b.left, h - 1) == v && edge(b.above, w - 1) == v);
    if mode == IntraMode::Dc {
        lemma_flat_sum(b.above, w, v);
        lemma_flat_sum(b.left, h, v);
        assert((h * v + w * v + (w + h) / 2) / (w + h) == v) by (nonlinear_arith)
            requires
                w >= 1,
                h >= 1,
        ;
    } else {
        let (x, y) = (weight(w, j), weight(h, i));
        assert(x * v + (256 - x) * v == 256 * v) by (nonlinear_arith);
        assert(y * v + (256 - y) * v == 256 * v) by (nonlinear_arith);
    }
}

/// Whether every neighbour of a block is there and is a sample of a bit depth.
pub open spec fn neighboured(b: Around, depth: int) -> bool {
    &&& 1 <= b.w <= b.above.len()
    &&& 1 <= b.h <= b.left.len()
    &&& 1 <= depth <= 16
    &&& 0 <= b.corner < p2(depth)
    &&& forall|k: int| 0 <= k < b.above.len() ==> 0 <= #[trigger] b.above[k] < p2(depth)
    &&& forall|k: int| 0 <= k < b.left.len() ==> 0 <= #[trigger] b.left[k] < p2(depth)
}

/// The block on the other side of the diagonal: rows are columns, and what was above is
/// to the left.
pub open spec fn transposed(b: Around) -> Around {
    Around {
        above: b.left,
        left: b.above,
        corner: b.corner,
        have_above: b.have_left,
        have_left: b.have_above,
        w: b.h,
        h: b.w,
    }
}

/// The Paeth prediction is the one of the left, the upper and the corner neighbour that
/// is nearest to what continues their plane. The left one wins a tie, and then the upper
/// one. Where the corner equals one of the two others, it is the other.
pub proof fn lemma_paeth_is_nearest(b: Around, depth: int, i: int, j: int)
    requires
        neighboured(b, depth),
        0 <= i < b.h,
        0 <= j < b.w,
    ensures
        ({
            let (l, a, c) = (b.left[i] as int, b.above[j] as int, b.corner);
            let base = a + l - c;
            let v = predicted(IntraMode::Paeth, b, depth, i, j);
            let far = |n: int| if base >= n { base - n } else { n - base };
            &&& v == l || v == a || v == c
            &&& far(v) <= far(l) && far(v) <= far(a) && far(v) <= far(c)
            &&& v != l ==> far(v) < far(l)
            &&& v != l && v != a ==> far(v) < far(a)
            &&& c == l ==> v == a
            &&& c == a ==> v == l
        }),
{
    assert(0 <= b.left[i] < p2(depth) && 0 <= b.above[j] < p2(depth));
}

/// The vertical mode copies the neighbour above, the horizontal one that to the left.
pub proof fn lemma_copies(b: Around, depth: int, i: int, j: int)
    requires
        neighboured(b, depth),
        0 <= i < b.h,
        0 <= j < b.w,
    ensures
        predicted(IntraMode::V, b, depth, i, j) == b.above[j],
        predicted(IntraMode::H, b, depth, i, j) == b.left[i],
{
    assert(0 <= b.left[i] < p2(depth) && 0 <= b.above[j] < p2(depth));
}

/// What adding up the samples of a sequence one after the other gives.
pub open spec fn summed(s: Seq<i32>) -> int {
    s.fold_left(0int, |sum: int, x: i32| (sum + x) as int)
}

/// The sum of the first `n` neighbours is what adding them one after the other gives.
pub proof fn lemma_sum_adds_up(s: Seq<i32>, n: int)
    requires
        0 <= n <= s.len(),
    ensures
        edge_sum(s, n) == summed(s.take(n)),
    decreases n,
{
    if n > 0 {
        lemma_sum_adds_up(s, n - 1);
        assert(s.take(n).drop_last() =~= s.take(n - 1));
        assert(s.take(n).last() == s[n - 1]);
    }
}

/// How often two divides a power of two.
proof fn lemma_twos(k: int)
    requires
        k >= 0,
    ensures
        twos(p2(k)) == k,
    decreases k,
{
    lemma_p2_pos(k);
    if k > 0 {
        lemma_twos(k - 1);
        assert(p2(k) / 2 == p2(k - 1));
    } else {
        lemma_p2_values();
    }
}

/// The average is the whole number nearest to the mean of the neighbours there are, and
/// the middle of the range where there are none. It is the same at every place.
pub proof fn lemma_average_is_the_mean(b: Around, depth: int, i: int, j: int)
    requires
        neighboured(b, depth),
        exists|k: int| 0 <= k <= 16 && b.w == #[trigger] p2(k),
        exists|k: int| 0 <= k <= 16 && b.h == #[trigger] p2(k),
        0 <= i < b.h,
        0 <= j < b.w,
    ensures
        ({
            let (a, l) = (summed(b.above.take(b.w)), summed(b.left.take(b.h)));
            let v = predicted(IntraMode::Dc, b, depth, i, j);
            let (total, count) = if b.have_above && b.have_left {
                (a + l, b.w + b.h)
            } else if b.have_above {
                (a, b.w)
            } else if b.have_left {
                (l, b.h)
            } else {
                (p2(depth), 2)
            };
            -count <= 2 * count * v - 2 * total <= count
        }),
{
    let (w, h) = (b.w, b.h);
    lemma_sum_adds_up(b.above, w);
    lemma_sum_adds_up(b.left, h);
    let (a, l) = (edge_sum(b.above, w), edge_sum(b.left, h));
    let top = p2(depth) - 1;
    let v = average(b, depth);
    lemma_p2_pos(depth);
    lemma_top_sum(b.above, w, top);
    lemma_top_sum(b.left, h, top);
    if b.have_left && b.have_above {
        assert(-(w + h) <= 2 * (w + h) * v - 2 * (a + l) <= w + h) by {
            lemma_nearest(l + a, w + h);
        }
    } else if b.have_left {
        let k = choose|k: int| 0 <= k <= 16 && b.h == #[trigger] p2(k);
        lemma_twos(k);
        lemma_nearest(l, h);
        lemma_mean_bound(l, h, top);
        assert(v == (l + h / 2) / h);
        assert(-h <= 2 * h * v - 2 * l <= h);
    } else if b.have_above {
        let k = choose|k: int| 0 <= k <= 16 && b.w == #[trigger] p2(k);
        lemma_twos(k);
        lemma_nearest(a, w);
        lemma_mean_bound(a, w, top);
        assert(v == (a + w / 2) / w);
        assert(-w <= 2 * w * v - 2 * a <= w);
    } else {
        assert(p2(depth) == 2 * p2(depth - 1));
        assert(v == p2(depth - 1));
        assert(2 * 2int * v - 2 * p2(depth) == 0) by (nonlinear_arith)
            requires
                p2(depth) == 2 * p2(depth - 1),
                v == p2(depth - 1),
        ;
    }
}

/// Adding half of a divisor before dividing gives the nearest whole number.
proof fn lemma_nearest(total: int, count: int)
    requires
        0 <= total,
        1 <= count,
    ensures
        -count <= 2 * count * ((total + count / 2) / count) - 2 * total <= count,
{
    let q = (total + count / 2) / count;
    vstd::arithmetic::div_mod::lemma_fundamental_div_mod(total + count / 2, count);
    let r = (total + count / 2) % count;
    assert(total + count / 2 == count * q + r);
    assert(2 * count * q == 2 * (count * q)) by (nonlinear_arith);
}

/// A sum of samples is at most that of the greatest ones.
proof fn lemma_top_sum(s: Seq<i32>, n: int, top: int)
    requires
        0 <= n <= s.len(),
        forall|k: int| 0 <= k < s.len() ==> 0 <= #[trigger] s[k] <= top,
    ensures
        0 <= edge_sum(s, n) <= n * top,
    decreases n,
{
    if n > 0 {
        lemma_top_sum(s, n - 1, top);
        assert(edge(s, n - 1) == s[n - 1]);
        assert((n - 1) * top + top == n * top) by (nonlinear_arith);
    } else {
        assert(n * top == 0) by (nonlinear_arith)
            requires
                n == 0,
        ;
    }
}

/// A mean of samples is no greater than the greatest.
proof fn lemma_mean_bound(total: int, count: int, top: int)
    requires
        0 <= total <= count * top,
        1 <= count,
        0 <= top,
    ensures
        0 <= (total + count / 2) / count <= top,
{
    let q = (total + count / 2) / count;
    assert(0 <= q <= top) by (nonlinear_arith)
        requires
            q == (total + count / 2) / count,
            0 <= total <= count * top,
            1 <= count,
            0 <= top,
    ;
}

/// Prediction does not tell rows from columns: over the diagonal the vertical modes are
/// the horizontal ones, and the average and the blend in both directions stay.
pub proof fn lemma_modes_transpose(b: Around, depth: int, i: int, j: int)
    requires
        neighboured(b, depth),
        0 <= i < b.h,
        0 <= j < b.w,
    ensures
        predicted(IntraMode::Dc, b, depth, i, j) == predicted(IntraMode::Dc, transposed(b), depth, j, i),
        predicted(IntraMode::V, b, depth, i, j) == predicted(IntraMode::H, transposed(b), depth, j, i),
        predicted(IntraMode::Smooth, b, depth, i, j) == predicted(IntraMode::Smooth, transposed(b), depth, j, i),
        predicted(IntraMode::SmoothV, b, depth, i, j) == predicted(IntraMode::SmoothH, transposed(b), depth, j, i),
{
}

/// The weights of a side start next to one, never rise, and end at one part in as many
/// as the side has samples.
pub proof fn lemma_weights_fall(dim: int, i: int)
    requires
        dim == 4 || dim == 8 || dim == 16 || dim == 32 || dim == 64,
        0 <= i < dim,
    ensures
        weight(dim, 0) == 255,
        0 < weight(dim, i) < 256,
        weight(dim, dim - 1) * dim == 256,
        i + 1 < dim ==> weight(dim, i + 1) <= weight(dim, i),
        i + 1 < dim && 2 * i < dim ==> weight(dim, i + 1) < weight(dim, i),
{
}

/// A blend of two samples is between them, and nearer to the first the greater its
/// weight is: what is missed of the exact blend is at most half a sample.
proof fn lemma_blend(x: int, a: int, b: int, top: int)
    requires
        0 <= x <= 256,
        0 <= a <= top,
        0 <= b <= top,
    ensures
        ({
            let v = round2(x * a + (256 - x) * b, 8);
            &&& -128 <= 256 * v - (x * a + (256 - x) * b) <= 128
            &&& 0 <= v <= top
            &&& a <= b ==> a <= v <= b
            &&& b <= a ==> b <= v <= a
        }),
{
    lemma_p2_values();
    let s = x * a + (256 - x) * b;
    assert(a <= b ==> 256 * a <= s <= 256 * b) by (nonlinear_arith)
        requires
            s == x * a + (256 - x) * b,
            0 <= x <= 256,
    ;
    assert(b <= a ==> 256 * b <= s <= 256 * a) by (nonlinear_arith)
        requires
            s == x * a + (256 - x) * b,
            0 <= x <= 256,
    ;
}

/// The vertical blend runs down each column from the neighbour above it to the last one
/// on the left: it stays between the two, starts within a part in 256 of the first, and
/// never turns back. So does the horizontal blend along each row, from the neighbour to
/// its left to the last one above.
pub proof fn lemma_blends_run(b: Around, depth: int, i: int, j: int)
    requires
        neighboured(b, depth),
        b.w == 4 || b.w == 8 || b.w == 16 || b.w == 32 || b.w == 64,
        b.h == 4 || b.h == 8 || b.h == 16 || b.h == 32 || b.h == 64,
        0 <= i < b.h,
        0 <= j < b.w,
    ensures
        ({
            let (a, l) = (b.above[j] as int, b.left[b.h - 1] as int);
            let v = predicted(IntraMode::SmoothV, b, depth, i, j);
            let next = predicted(IntraMode::SmoothV, b, depth, i + 1, j);
            &&& i == 0 ==> -128 <= 256 * v - (255 * a + l) <= 128
            &&& i == b.h - 1 ==> -128 <= 256 * v - (256int / b.h * a + (256 - 256int / b.h) * l) <= 128
            &&& a <= l ==> a <= v <= l && (i + 1 < b.h ==> v <= next)
            &&& l <= a ==> l <= v <= a && (i + 1 < b.h ==> next <= v)
        }),
        ({
            let (a, l) = (b.above[b.w - 1] as int, b.left[i] as int);
            let v = predicted(IntraMode::SmoothH, b, depth, i, j);
            let next = predicted(IntraMode::SmoothH, b, depth, i, j + 1);
            &&& j == 0 ==> -128 <= 256 * v - (255 * l + a) <= 128
            &&& j == b.w - 1 ==> -128 <= 256 * v - (256int / b.w * l + (256 - 256int / b.w) * a) <= 128
            &&& l <= a ==> l <= v <= a && (j + 1 < b.w ==> v <= next)
            &&& a <= l ==> a <= v <= l && (j + 1 < b.w ==> next <= v)
        }),
{
    lemma_blend_column(b, depth, i, j);
    lemma_blend_column(transposed(b), depth, j, i);
}

/// The vertical blend runs down each column.
proof fn lemma_blend_column(b: Around, depth: int, i: int, j: int)
    requires
        neighboured(b, depth),
        b.h == 4 || b.h == 8 || b.h == 16 || b.h == 32 || b.h == 64,
        0 <= i < b.h,
        0 <= j < b.w,
    ensures
        ({
            let (a, l) = (b.above[j] as int, b.left[b.h - 1] as int);
            let v = predicted(IntraMode::SmoothV, b, depth, i, j);
            let next = predicted(IntraMode::SmoothV, b, depth, i + 1, j);
            &&& v == round2(weight(b.h, i) * a + (256 - weight(b.h, i)) * l, 8)
            &&& i == 0 ==> -128 <= 256 * v - (255 * a + l) <= 128
            &&& i == b.h - 1 ==> -128 <= 256 * v - (256int / b.h * a + (256 - 256int / b.h) * l) <= 128
            &&& a <= l ==> a <= v <= l && (i + 1 < b.h ==> v <= next)
            &&& l <= a ==> l <= v <= a && (i + 1 < b.h ==> next <= v)
        }),
{
    let (h, top) = (b.h, p2(depth) - 1);
    let (a, l) = (b.above[j] as int, b.left[h - 1] as int);
    assert(0 <= b.above[j] < p2(depth) && 0 <= b.left[h - 1] < p2(depth));
    lemma_weights_fall(h, i);
    let x = weight(h, i);
    lemma_blend(x, a, l, top);
    assert(i == h - 1 ==> x == 256int / h);
    assert(x * a == 255 * a && (256 - x) * l == l || x != 255) by (nonlinear_arith);
    if i + 1 < h {
        lemma_weights_fall(h, i + 1);
        let y = weight(h, i + 1);
        lemma_blend(y, a, l, top);
        let (s, t) = (x * a + (256 - x) * l, y * a + (256 - y) * l);
        assert(a <= l ==> s <= t) by (nonlinear_arith)
            requires
                s == x * a + (256 - x) * l,
                t == y * a + (256 - y) * l,
                y <= x,
        ;
        assert(l <= a ==> t <= s) by (nonlinear_arith)
            requires
                s == x * a + (256 - x) * l,
                t == y * a + (256 - y) * l,
                y <= x,
        ;
        lemma_p2_values();
    }
}

/// The blend in both directions is the mean of the vertical and the horizontal one, but
/// for rounding.
pub proof fn lemma_blend_of_blends(b: Around, depth: int, i: int, j: int)
    requires
        neighboured(b, depth),
        b.w == 4 || b.w == 8 || b.w == 16 || b.w == 32 || b.w == 64,
        b.h == 4 || b.h == 8 || b.h == 16 || b.h == 32 || b.h == 64,
        0 <= i < b.h,
        0 <= j < b.w,
    ensures
        ({
            let both = predicted(IntraMode::Smooth, b, depth, i, j);
            let down = predicted(IntraMode::SmoothV, b, depth, i, j);
            let along = predicted(IntraMode::SmoothH, b, depth, i, j);
            -2 < 2 * both - (down + along) < 3
        }),
{
    let (w, h, top) = (b.w, b.h, p2(depth) - 1);
    assert(0 <= b.above[j] < p2(depth) && 0 <= b.left[h - 1] < p2(depth));
    assert(0 <= b.above[w - 1] < p2(depth) && 0 <= b.left[i] < p2(depth));
    let (a, below, l, right) = (b.above[j] as int, b.left[h - 1] as int, b.left[i] as int, b.above[w - 1] as int);
    lemma_weights_fall(h, i);
    lemma_weights_fall(w, j);
    let (y, x) = (weight(h, i), weight(w, j));
    lemma_blend(y, a, below, top);
    lemma_blend(x, l, right, top);
    lemma_p2_values();
    let (s, t) = (y * a + (256 - y) * below, x * l + (256 - x) * right);
    assert(0 <= s <= 256 * top && 0 <= t <= 256 * top) by (nonlinear_arith)
        requires
            s == y * a + (256 - y) * below,
            t == x * l + (256 - x) * right,
            0 <= y <= 256,
            0 <= x <= 256,
            0 <= a <= top,
            0 <= below <= top,
            0 <= l <= top,
            0 <= right <= top,
    ;
}

} // verus!
