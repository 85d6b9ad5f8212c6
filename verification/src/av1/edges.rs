//! The prediction of a transform block from the samples around it.
use super::block::{kernel_at, Setup};
use super::direction::{
    direction, look, mixed, mode_base_angle, predict_directional, predict_filter_intra, recursive, sampled, Direction, Edge,
    ANGLE_STEP, MODE_TO_ANGLE,
};
use super::plane::{under, Plane, Samples};
use super::predict::{edge_sum, predict_intra_block, predicted, Around, IntraMode, PredBlock};
use super::transform::{lemma_raster, TxSize};
use super::units::lemma_ungrid;
use crate::error::Outcome;
use crate::math::{
    clamp, lemma_p2_add, lemma_p2_mono, lemma_p2_pos, lemma_p2_values, min, p2, pow2_i32, round2, round2_signed, shr_i64,
};
use vstd::prelude::*;

verus! {

/// A palette's colours on one plane of a block, with the map of which sample has
/// which.
#[derive(Clone, Copy)]
pub struct PaletteView<'a> {
    /// The colour map of the block.
    pub map: &'a Vec<u8>,
    /// The colours.
    pub colours: &'a [u16; 8],
    /// The block's width.
    pub block_w: usize,
    /// The block's left edge.
    pub base_x: usize,
    /// The block's top edge.
    pub base_y: usize,
}

/// What a palette's colours on one plane are.
#[verifier::ext_equal]
pub struct PaletteAt {
    /// The colour map of the block.
    pub map: Seq<u8>,
    /// The colours.
    pub colours: Seq<u16>,
    /// The block's width.
    pub block_w: int,
    /// The block's left edge.
    pub base_x: int,
    /// The block's top edge.
    pub base_y: int,
}

/// What a palette's colours are, where there is one.
pub open spec fn palette_at(p: Option<PaletteView<'_>>) -> Option<PaletteAt> {
    match p {
        Some(v) => Some(
            PaletteAt {
                map: v.map@,
                colours: v.colours@,
                block_w: v.block_w as int,
                base_x: v.base_x as int,
                base_y: v.base_y as int,
            },
        ),
        None => None,
    }
}

/// A transform block.
#[derive(Clone, Copy)]
pub struct TxBlock<'a> {
    /// Its plane.
    pub plane: usize,
    /// Its left edge.
    pub x: usize,
    /// Its top edge.
    pub y: usize,
    /// Its size.
    pub tx_size: TxSize,
    /// The mode it is predicted in.
    pub mode: usize,
    /// The angle delta.
    pub angle_delta: i32,
    /// Whether the samples to the left are reconstructed.
    pub have_left: bool,
    /// Whether the samples above are reconstructed.
    pub have_above: bool,
    /// Whether a neighbouring block is smooth.
    pub smooth: bool,
    /// The kernel of the recursive filter, where it is used.
    pub filter_intra: Option<usize>,
    /// The factor of a prediction from luma.
    pub cfl_alpha: Option<i32>,
    /// The palette, where there is one.
    pub palette: Option<PaletteView<'a>>,
    /// Whether the block has no residual.
    pub skip: bool,
    /// The block's width in units.
    pub bw4: usize,
    /// The block's height in units.
    pub bh4: usize,
}

/// What a transform block is.
#[verifier::ext_equal]
pub struct TxAt {
    /// Its plane.
    pub plane: int,
    /// Its left edge.
    pub x: int,
    /// Its top edge.
    pub y: int,
    /// Its size.
    pub size: TxSize,
    /// The mode it is predicted in.
    pub mode: int,
    /// The angle delta.
    pub angle_delta: int,
    /// Whether the samples to the left are reconstructed.
    pub have_left: bool,
    /// Whether the samples above are reconstructed.
    pub have_above: bool,
    /// Whether a neighbouring block is smooth.
    pub smooth: bool,
    /// The kernel of the recursive filter, where it is used.
    pub filter_intra: Option<int>,
    /// The factor of a prediction from luma.
    pub cfl_alpha: Option<int>,
    /// The palette, where there is one.
    pub palette: Option<PaletteAt>,
    /// Whether the block has no residual.
    pub skip: bool,
    /// The block's width in units.
    pub bw4: int,
    /// The block's height in units.
    pub bh4: int,
}

impl<'a> View for TxBlock<'a> {
    type V = TxAt;

    open spec fn view(&self) -> TxAt {
        TxAt {
            plane: self.plane as int,
            x: self.x as int,
            y: self.y as int,
            size: self.tx_size,
            mode: self.mode as int,
            angle_delta: self.angle_delta as int,
            have_left: self.have_left,
            have_above: self.have_above,
            smooth: self.smooth,
            filter_intra: kernel_at(self.filter_intra),
            cfl_alpha: match self.cfl_alpha {
                Some(a) => Some(a as int),
                None => None,
            },
            palette: palette_at(self.palette),
            skip: self.skip,
            bw4: self.bw4 as int,
            bh4: self.bh4 as int,
        }
    }
}

impl<'a> TxBlock<'a> {
    /// The block starts in a plane and its parameters are in range.
    pub open spec fn wf(&self, p: Samples) -> bool {
        &&& p.has(self.x as int, self.y as int)
        &&& self.mode < 13
        &&& -3 <= self.angle_delta <= 3
        &&& self.have_left ==> self.x >= 1
        &&& self.have_above ==> self.y >= 1
        &&& self.filter_intra matches Some(k) ==> k < 5
        &&& self.cfl_alpha matches Some(a) ==> -16 <= a <= 16 && self.mode == 0
        &&& self.palette matches Some(v) ==> v.base_x <= self.x && v.base_y <= self.y && v.block_w <= 64 && v.map@.len()
            <= 4096
    }
}

/// Whether a place of a superblock, given from one before its corner on, is
/// decoded.
pub open spec fn is_decoded(flags: Seq<u8>, stride: int, row: int, column: int) -> bool {
    let at = (row + 1) * stride + (column + 1);
    0 <= at < flags.len() && flags[at] != 0
}

/// Whether a place of a superblock is decoded.
pub fn decoded_at(flags: &Vec<u8>, stride: usize, row_past: usize, column_past: usize) -> (r: bool)
    requires
        stride <= 64,
        row_past <= 128,
        column_past <= 128,
    ensures
        r == is_decoded(flags@, stride as int, row_past - 1, column_past - 1),
{
    proof {
        assert(0 <= row_past * stride <= 128 * 64) by (nonlinear_arith)
            requires
                0 <= row_past <= 128,
                0 <= stride <= 64,
        ;
    }
    let at = row_past * stride + column_past;
    at < flags.len() && flags[at] != 0
}

/// The samples around a transform block.
pub struct Outlook {
    /// The plane.
    pub p: Samples,
    /// Which places of the superblock are decoded.
    pub flags: Seq<u8>,
    /// The side of a superblock in units.
    pub side: int,
    /// The bit depth.
    pub depth: int,
}

impl Outlook {
    /// Whether the samples above to the right are decoded.
    pub open spec fn above_right(self, t: TxAt) -> bool {
        is_decoded(self.flags, self.side + 2, (t.y / 4) % self.side - 1, (t.x / 4) % self.side + t.size.w() / 4)
    }

    /// Whether the samples below to the left are decoded.
    pub open spec fn below_left(self, t: TxAt) -> bool {
        is_decoded(self.flags, self.side + 2, (t.y / 4) % self.side + t.size.h() / 4, (t.x / 4) % self.side - 1)
    }

    /// A sample of the row above, which is continued to the right by its last
    /// sample; where it is not there, by the sample to the left, or by a value just
    /// below the middle.
    pub open spec fn above(self, t: TxAt, i: int) -> int {
        if t.have_above {
            let extent = if self.above_right(t) {
                2 * t.size.w()
            } else {
                t.size.w()
            };
            self.p.sample(min(t.x + i, min(t.x + extent - 1, self.p.width - 1)), t.y - 1) as int
        } else if t.have_left {
            self.p.sample(t.x - 1, t.y) as int
        } else {
            p2(self.depth - 1) - 1
        }
    }

    /// A sample of the column to the left, continued in the same way; the value is
    /// just above the middle.
    pub open spec fn left(self, t: TxAt, i: int) -> int {
        if t.have_left {
            let extent = if self.below_left(t) {
                2 * t.size.h()
            } else {
                t.size.h()
            };
            self.p.sample(t.x - 1, min(t.y + i, min(t.y + extent - 1, self.p.height - 1))) as int
        } else if t.have_above {
            self.p.sample(t.x, t.y - 1) as int
        } else {
            p2(self.depth - 1) + 1
        }
    }

    /// The sample above the column and left of the row.
    pub open spec fn corner(self, t: TxAt) -> int {
        if t.have_above && t.have_left {
            self.p.sample(t.x - 1, t.y - 1) as int
        } else if t.have_above {
            self.p.sample(t.x, t.y - 1) as int
        } else if t.have_left {
            self.p.sample(t.x - 1, t.y) as int
        } else {
            p2(self.depth - 1)
        }
    }

    /// The row above as an edge.
    pub open spec fn above_edge(self, t: TxAt) -> Seq<i32> {
        Seq::new(
            320,
            |k: int|
                if 16 <= k < 16 + t.size.w() + t.size.h() {
                    self.above(t, k - 16) as i32
                } else if k == 15 {
                    self.corner(t) as i32
                } else {
                    0
                },
        )
    }

    /// The column to the left as an edge.
    pub open spec fn left_edge(self, t: TxAt) -> Seq<i32> {
        Seq::new(
            320,
            |k: int|
                if 16 <= k < 16 + t.size.w() + t.size.h() {
                    self.left(t, k - 16) as i32
                } else if k == 15 {
                    self.corner(t) as i32
                } else {
                    0
                },
        )
    }

    /// The prediction of a sample by a mode that needs no edge filtering.
    pub open spec fn plain(self, t: TxAt, mode: IntraMode, i: int, j: int) -> int {
        predicted(
            mode,
            Around {
                above: self.above_edge(t).subrange(16, 16 + t.size.w()),
                left: self.left_edge(t).subrange(16, 16 + t.size.h()),
                corner: look(self.above_edge(t), -1),
                have_above: t.have_above,
                have_left: t.have_left,
                w: t.size.w(),
                h: t.size.h(),
            },
            self.depth,
            i,
            j,
        )
    }
}

/// A sample of a plane; an edge row or column of a place is in the plane.
fn sample_of(p: &Plane, x: usize, y: usize) -> (r: i32)
    requires
        p@.wf(),
        p@.has(x as int, y as int),
    ensures
        r == p@.sample(x as int, y as int),
        0 <= r <= 0xFFFF,
{
    match p.get(x, y) {
        Some(v) => v as i32,
        None => 0,
    }
}

/// Gather the edges of a transform block.
fn gather_edges(p: &Plane, flags: &Vec<u8>, s: &Setup, tb: &TxBlock<'_>) -> (r: (Edge, Edge))
    requires
        s.wf(),
        p@.wf(),
        p@.width <= 0x10000,
        p@.height <= 0x10000,
        tb.wf(p@),
    ensures
        ({
            let o = Outlook { p: p@, flags: flags@, side: s.sb_size4 as int, depth: s.bit_depth as int };
            &&& r.0@ == o.above_edge(tb@)
            &&& r.1@ == o.left_edge(tb@)
        }),
        sampled(r.0@),
        sampled(r.1@),
{
    let ghost o = Outlook { p: p@, flags: flags@, side: s.sb_size4 as int, depth: s.bit_depth as int };
    let (x, y) = (tb.x, tb.y);
    let w = tb.tx_size.width();
    let h = tb.tx_size.height();
    let side = s.sb_size4;
    proof {
        lemma_p2_values();
        lemma_p2_mono(s.bit_depth - 1, 11);
        lemma_p2_mono(7, s.bit_depth - 1);
    }
    let middle = pow2_i32(s.bit_depth as u32 - 1);
    let row = (y / 4) % side;
    let column = (x / 4) % side;
    let above_right = decoded_at(flags, side + 2, row, column + w / 4 + 1);
    let below_left = decoded_at(flags, side + 2, row + h / 4 + 1, column);
    let corner = if tb.have_above && tb.have_left {
        sample_of(p, x - 1, y - 1)
    } else if tb.have_above {
        sample_of(p, x, y - 1)
    } else if tb.have_left {
        sample_of(p, x - 1, y)
    } else {
        middle
    };
    let mut above = Edge::new();
    let mut left = Edge::new();
    above.set(-1, corner);
    left.set(-1, corner);
    let across = x + (if above_right {
        2 * w
    } else {
        w
    }) - 1;
    let down = y + (if below_left {
        2 * h
    } else {
        h
    }) - 1;
    let last_x = if across < p.width() - 1 {
        across
    } else {
        p.width() - 1
    };
    let last_y = if down < p.height() - 1 {
        down
    } else {
        p.height() - 1
    };
    let count = w + h;
    let mut i: usize = 0;
    while i < count
        invariant
            i <= count,
            count == tb@.size.w() + tb@.size.h(),
            count <= 128,
            p@.wf(),
            p@.width <= 0x10000,
            p@.height <= 0x10000,
            tb.wf(p@),
            x == tb.x,
            y == tb.y,
            o == (Outlook { p: p@, flags: flags@, side: s.sb_size4 as int, depth: s.bit_depth as int }),
            above_right == o.above_right(tb@),
            below_left == o.below_left(tb@),
            last_x == min(
                x + (if above_right {
                    2 * tb@.size.w()
                } else {
                    tb@.size.w()
                }) - 1,
                p@.width - 1,
            ),
            last_y == min(
                y + (if below_left {
                    2 * tb@.size.h()
                } else {
                    tb@.size.h()
                }) - 1,
                p@.height - 1,
            ),
            tb@.size.w() >= 4,
            tb@.size.h() >= 4,
            middle == p2(o.depth - 1),
            128 <= middle <= 2048,
            corner == o.corner(tb@),
            0 <= corner <= 0xFFFF,
            above@.len() == 320,
            left@.len() == 320,
            forall|k: int|
                0 <= k < 320 ==> #[trigger] above@[k] == if 16 <= k < 16 + i {
                    o.above(tb@, k - 16) as i32
                } else if k == 15 {
                    corner
                } else {
                    0
                },
            forall|k: int|
                0 <= k < 320 ==> #[trigger] left@[k] == if 16 <= k < 16 + i {
                    o.left(tb@, k - 16) as i32
                } else if k == 15 {
                    corner
                } else {
                    0
                },
            sampled(above@),
            sampled(left@),
        decreases count - i,
    {
        let up = if tb.have_above {
            sample_of(
                p,
                if x + i < last_x {
                    x + i
                } else {
                    last_x
                },
                y - 1,
            )
        } else if tb.have_left {
            sample_of(p, x - 1, y)
        } else {
            middle - 1
        };
        let back = if tb.have_left {
            sample_of(
                p,
                x - 1,
                if y + i < last_y {
                    y + i
                } else {
                    last_y
                },
            )
        } else if tb.have_above {
            sample_of(p, x, y - 1)
        } else {
            middle + 1
        };
        assert(up == o.above(tb@, i as int));
        assert(back == o.left(tb@, i as int));
        above.set(i as isize, up);
        left.set(i as isize, back);
        i = i + 1;
    }
    assert(above@ =~= o.above_edge(tb@));
    assert(left@ =~= o.left_edge(tb@));
    (above, left)
}

/// The mode with an index; the first past the last.
pub open spec fn mode_of(code: int) -> IntraMode {
    if code == 1 {
        IntraMode::V
    } else if code == 2 {
        IntraMode::H
    } else if code == 3 {
        IntraMode::D45
    } else if code == 4 {
        IntraMode::D135
    } else if code == 5 {
        IntraMode::D113
    } else if code == 6 {
        IntraMode::D157
    } else if code == 7 {
        IntraMode::D203
    } else if code == 8 {
        IntraMode::D67
    } else if code == 9 {
        IntraMode::Smooth
    } else if code == 10 {
        IntraMode::SmoothV
    } else if code == 11 {
        IntraMode::SmoothH
    } else if code == 12 {
        IntraMode::Paeth
    } else {
        IntraMode::Dc
    }
}

/// The colour of a sample of a palette block; zero outside of its map.
pub open spec fn palette_colour(v: PaletteAt, row: int, column: int) -> u16 {
    let at = row * v.block_w + column;
    let index = if at < v.map.len() {
        v.map[at] as int
    } else {
        0
    };
    if index < 8 {
        v.colours[index]
    } else {
        0
    }
}

/// Eight times the luma sample at a place of a block; zero outside the plane.
pub open spec fn luma_at(luma: Samples, t: TxAt, k: int) -> int {
    let (x, y) = (t.x + k % t.size.w(), t.y + k / t.size.w());
    if luma.has(x, y) {
        8 * luma.sample(x, y)
    } else {
        0
    }
}

/// The sum over the first samples of a block.
pub open spec fn luma_sum(luma: Samples, t: TxAt, n: int) -> int
    decreases n,
{
    if n <= 0 {
        0
    } else {
        luma_sum(luma, t, n - 1) + luma_at(luma, t, n - 1)
    }
}

/// A sample's prediction with what luma adds: how far its luma is from the mean, by
/// a factor in sixty-fourths.
pub open spec fn with_luma(luma: Samples, t: TxAt, alpha: int, value: int, depth: int, k: int) -> int {
    let mean = round2(luma_sum(luma, t, t.size.w() * t.size.h()), t.size.wlog() + t.size.hlog());
    clamp(value + round2_signed(alpha * (luma_at(luma, t, k) - mean), 6), 0, p2(depth) - 1)
}

/// The angle that a block is predicted along.
pub open spec fn angle_of(t: TxAt) -> int {
    MODE_TO_ANGLE@[t.mode] + t.angle_delta * ANGLE_STEP
}

/// Whether a block is predicted along a slant.
pub open spec fn is_slanted(t: TxAt) -> bool {
    1 <= t.mode <= 8 && angle_of(t) != 90 && angle_of(t) != 180
}

/// The slant that a block is predicted along.
pub open spec fn slant(o: Outlook, tools: bool, t: TxAt) -> Direction {
    Direction {
        angle: angle_of(t),
        w: t.size.w(),
        h: t.size.h(),
        have_left: t.have_left,
        have_above: t.have_above,
        smooth: t.smooth,
        tools,
        avail_above: o.p.width - t.x,
        avail_left: o.p.height - t.y,
        top: p2(o.depth) - 1,
    }
}

/// The prediction of one sample of a transform block, in raster order.
pub open spec fn sample_predicted(o: Outlook, luma: Samples, tools: bool, t: TxAt, k: int) -> int {
    let (i, j) = (k / t.size.w(), k % t.size.w());
    match t.palette {
        Some(v) => palette_colour(v, t.y + i - v.base_y, t.x + j - v.base_x) as int,
        None => match t.filter_intra {
            Some(kernel) => recursive(kernel, o.above_edge(t), o.left_edge(t), p2(o.depth) - 1, i, j),
            None => if is_slanted(t) {
                slant(o, tools, t).predicted(o.above_edge(t), o.left_edge(t), i, j)
            } else {
                let value = o.plain(t, mode_of(t.mode), i, j);
                match t.cfl_alpha {
                    Some(alpha) => with_luma(luma, t, alpha, value, o.depth, k),
                    None => value,
                }
            },
        },
    }
}

/// The prediction of a transform block.
#[verifier::opaque]
pub open spec fn prediction(o: Outlook, luma: Samples, tools: bool, t: TxAt) -> Seq<u16> {
    Seq::new((t.size.w() * t.size.h()) as nat, |k: int| sample_predicted(o, luma, tools, t, k) as u16)
}

/// The sides of a transform are a multiple of four.
proof fn lemma_sides(size: TxSize)
    ensures
        size.w() == 4 || size.w() == 8 || size.w() == 16 || size.w() == 32 || size.w() == 64,
        size.h() == 4 || size.h() == 8 || size.h() == 16 || size.h() == 32 || size.h() == 64,
        16 <= size.w() * size.h() <= 4096,
{
    lemma_p2_values();
    let (w, h) = (size.w(), size.h());
    assert(16 <= w * h <= 4096) by (nonlinear_arith)
        requires
            4 <= w <= 64,
            4 <= h <= 64,
    ;
}

/// Predict a block from its palette.
fn predict_palette(v: &PaletteView<'_>, tb: &TxBlock<'_>, Ghost(p): Ghost<Samples>) -> (r: Vec<u16>)
    requires
        tb.wf(p),
        p.width <= 0x10000,
        p.height <= 0x10000,
        v.base_x <= tb.x,
        v.base_y <= tb.y,
        v.block_w <= 64,
        v.map@.len() <= 4096,
    ensures
        r@.len() == tb@.size.w() * tb@.size.h(),
        forall|k: int|
            0 <= k < r@.len() ==> #[trigger] r@[k] == palette_colour(
                palette_at(Some(*v))->0,
                tb.y + k / tb@.size.w() - v.base_y,
                tb.x + k % tb@.size.w() - v.base_x,
            ),
{
    let w = tb.tx_size.width();
    let h = tb.tx_size.height();
    proof {
        lemma_sides(tb.tx_size);
    }
    let ghost at_v = palette_at(Some(*v))->0;
    let mut out: Vec<u16> = Vec::new();
    let mut k: usize = 0;
    let area = w * h;
    while k < area
        invariant
            k <= area,
            area == w * h,
            area <= 4096,
            4 <= w <= 64,
            w == tb@.size.w(),
            h == tb@.size.h(),
            tb.wf(p),
            p.width <= 0x10000,
            p.height <= 0x10000,
            v.base_x <= tb.x,
            v.base_y <= tb.y,
            v.block_w <= 64,
            v.map@.len() <= 4096,
            at_v == palette_at(Some(*v))->0,
            out@.len() == k,
            forall|n: int|
                0 <= n < k ==> #[trigger] out@[n] == palette_colour(
                    at_v,
                    tb.y + n / (w as int) - v.base_y,
                    tb.x + n % (w as int) - v.base_x,
                ),
        decreases area - k,
    {
        proof {
            let (n, d) = (k as int, w as int);
            assert(0 <= n / d <= n && 0 <= n % d < d) by (nonlinear_arith)
                requires
                    n >= 0,
                    d > 0,
            ;
        }
        let row = tb.y + k / w - v.base_y;
        let column = tb.x + k % w - v.base_x;
        proof {
            let (a, b) = (row as int, v.block_w as int);
            assert(0 <= a * b <= 0x11000 * 64) by (nonlinear_arith)
                requires
                    0 <= a <= 0x11000,
                    0 <= b <= 64,
            ;
        }
        let at = row * v.block_w + column;
        let index = if at < v.map.len() {
            v.map[at]
        } else {
            0
        };
        out.push(
            if index < 8 {
                v.colours[index as usize]
            } else {
                0
            },
        );
        k = k + 1;
    }
    out
}

/// The sum over the first samples is bounded.
proof fn lemma_luma_sum(luma: Samples, t: TxAt, n: int)
    requires
        n >= 0,
    ensures
        0 <= luma_sum(luma, t, n) <= n * 524280,
    decreases n,
{
    if n > 0 {
        lemma_luma_sum(luma, t, n - 1);
    }
}

/// Eight times the luma sample at a place of a block.
fn luma_of(luma: &Plane, tb: &TxBlock<'_>, w: usize, k: usize) -> (r: i64)
    requires
        luma@.wf(),
        w == tb@.size.w(),
        w > 0,
        k < 4096,
        tb.x <= 0x10000,
        tb.y <= 0x10000,
    ensures
        r == luma_at(luma@, tb@, k as int),
        0 <= r <= 524280,
{
    proof {
        let (n, d) = (k as int, w as int);
        assert(0 <= n / d <= n && 0 <= n % d <= n) by (nonlinear_arith)
            requires
                n >= 0,
                d > 0,
        ;
    }
    match luma.get(tb.x + k % w, tb.y + k / w) {
        Some(v) => 8 * (v as i64),
        None => 0,
    }
}

/// Add to a prediction what luma adds.
fn apply_cfl(luma: &Plane, tb: &TxBlock<'_>, values: Vec<u16>, alpha: i32, bit_depth: u8) -> (r: Vec<u16>)
    requires
        luma@.wf(),
        tb.x <= 0x10000,
        tb.y <= 0x10000,
        values@.len() == tb@.size.w() * tb@.size.h(),
        -16 <= alpha <= 16,
        bit_depth <= 16,
    ensures
        r@.len() == values@.len(),
        forall|k: int|
            0 <= k < r@.len() ==> #[trigger] r@[k] == with_luma(
                luma@,
                tb@,
                alpha as int,
                values@[k] as int,
                bit_depth as int,
                k,
            ),
{
    let w = tb.tx_size.width();
    let h = tb.tx_size.height();
    proof {
        lemma_sides(tb.tx_size);
        lemma_p2_values();
        lemma_p2_mono(bit_depth as int, 16);
        lemma_p2_pos(bit_depth as int);
    }
    let area = w * h;
    let top = pow2_i32(bit_depth as u32) - 1;
    let mut sum: i64 = 0;
    let mut n: usize = 0;
    while n < area
        invariant
            n <= area <= 4096,
            luma@.wf(),
            w == tb@.size.w(),
            w > 0,
            tb.x <= 0x10000,
            tb.y <= 0x10000,
            sum == luma_sum(luma@, tb@, n as int),
            0 <= sum <= n * 524280,
        decreases area - n,
    {
        sum = sum + luma_of(luma, tb, w, n);
        n = n + 1;
    }
    let shift = tb.tx_size.log2_width() + tb.tx_size.log2_height();
    let mean = mean_of(sum, shift);
    let mut out: Vec<u16> = Vec::new();
    let mut k: usize = 0;
    while k < area
        invariant
            k <= area,
            area <= 4096,
            values@.len() == area,
            area == tb@.size.w() * tb@.size.h(),
            luma@.wf(),
            w == tb@.size.w(),
            w > 0,
            tb.x <= 0x10000,
            tb.y <= 0x10000,
            -16 <= alpha <= 16,
            top == p2(bit_depth as int) - 1,
            0 <= top <= 0xFFFF,
            0 <= mean <= 0x1_0000_0000,
            mean == round2(
                luma_sum(luma@, tb@, tb@.size.w() * tb@.size.h()),
                tb@.size.wlog() + tb@.size.hlog(),
            ),
            out@.len() == k,
            forall|m: int|
                0 <= m < k ==> #[trigger] out@[m] == with_luma(
                    luma@,
                    tb@,
                    alpha as int,
                    values@[m] as int,
                    bit_depth as int,
                    m,
                ),
        decreases area - k,
    {
        let away = luma_of(luma, tb, w, k) - mean;
        proof {
            let (a, b) = (alpha as int, away as int);
            assert(-0x20_0000_0000 <= a * b <= 0x20_0000_0000) by (nonlinear_arith)
                requires
                    -16 <= a <= 16,
                    -0x1_0000_0000 <= b <= 0x1_0000_0000,
            ;
        }
        let scaled = rounded_64th(alpha as i64 * away);
        let value = values[k] as i64 + scaled;
        out.push(
            if value < 0 {
                0
            } else if value > top as i64 {
                top as u16
            } else {
                value as u16
            },
        );
        k = k + 1;
    }
    out
}

/// The mean of a sum over a power of two of samples, rounded.
fn mean_of(sum: i64, shift: u32) -> (r: i64)
    requires
        0 <= sum <= 0x1_0000_0000,
        4 <= shift <= 12,
    ensures
        r == round2(sum as int, shift as int),
        0 <= r <= 0x1_0000_0000,
{
    proof {
        lemma_p2_values();
        lemma_p2_mono(shift - 1, 12);
        lemma_p2_mono(shift as int, 12);
        lemma_p2_pos(shift as int);
        lemma_p2_pos(shift - 1);
        crate::math::lemma_quotient_bound(sum + p2(shift - 1), p2(shift as int));
        let (a, b) = (sum + p2(shift - 1), p2(shift as int));
        assert(a / b <= 0x1_0000_0000) by (nonlinear_arith)
            requires
                0 <= a <= 0x1_0000_0000 + 4096,
                b >= 16,
        ;
    }
    shr_i64(sum + pow2_i32(shift - 1) as i64, shift)
}

/// A sixty-fourth of a number, rounded half away from zero.
fn rounded_64th(x: i64) -> (r: i64)
    requires
        -0x20_0000_0000 <= x <= 0x20_0000_0000,
    ensures
        r == round2_signed(x as int, 6),
        -0x1_0000_0000 <= r <= 0x1_0000_0000,
{
    proof {
        lemma_p2_values();
    }
    if x >= 0 {
        (x + 32) / 64
    } else {
        -((-x + 32) / 64)
    }
}

/// A slanted mode never follows an axis.
proof fn lemma_slanted(mode: IntraMode, delta: int)
    requires
        mode.slanted(),
        -3 <= delta <= 3,
    ensures
        MODE_TO_ANGLE@[mode.code()] + delta * ANGLE_STEP != 90,
        MODE_TO_ANGLE@[mode.code()] + delta * ANGLE_STEP != 180,
{
}

/// A mode is the one with its index.
proof fn lemma_mode_of(mode: IntraMode)
    ensures
        mode_of(mode.code()) == mode,
{
}

/// Predict a block by a mode that needs no edge filtering.
fn predict_plain(p: &Plane, flags: &Vec<u8>, s: &Setup, tb: &TxBlock<'_>) -> (r: Outcome<Vec<u16>>)
    requires
        s.wf(),
        p@.wf(),
        p@.width <= 0x10000,
        p@.height <= 0x10000,
        tb.wf(p@),
        !is_slanted(tb@),
    ensures
        r is Ok,
        r->Ok_0@.len() == tb@.size.w() * tb@.size.h(),
        forall|k: int|
            0 <= k < r->Ok_0@.len() ==> #[trigger] r->Ok_0@[k] == (Outlook {
                p: p@,
                flags: flags@,
                side: s.sb_size4 as int,
                depth: s.bit_depth as int,
            }).plain(tb@, mode_of(tb.mode as int), k / tb@.size.w(), k % tb@.size.w()),
{
    let ghost o = Outlook { p: p@, flags: flags@, side: s.sb_size4 as int, depth: s.bit_depth as int };
    let w = tb.tx_size.width();
    let h = tb.tx_size.height();
    let (above, left) = gather_edges(p, flags, s, tb);
    let mut row: Vec<i32> = Vec::new();
    let mut j: usize = 0;
    while j < w
        invariant
            j <= w <= 64,
            sampled(above@),
            row@.len() == j,
            forall|k: int| 0 <= k < j ==> #[trigger] row@[k] == above@[16 + k],
        decreases w - j,
    {
        row.push(above.get(j as isize));
        j = j + 1;
    }
    let mut column: Vec<i32> = Vec::new();
    let mut i: usize = 0;
    while i < h
        invariant
            i <= h <= 64,
            sampled(left@),
            column@.len() == i,
            forall|k: int| 0 <= k < i ==> #[trigger] column@[k] == left@[16 + k],
        decreases h - i,
    {
        column.push(left.get(i as isize));
        i = i + 1;
    }
    let corner = above.get(-1);
    let block = PredBlock {
        above: row.as_slice(),
        left: column.as_slice(),
        corner,
        have_above: tb.have_above,
        have_left: tb.have_left,
        w,
        h,
    };
    proof {
        assert(row@ =~= above@.subrange(16, 16 + w));
        assert(column@ =~= left@.subrange(16, 16 + h));
        assert forall|k: int| 0 <= k < row@.len() implies 0 <= #[trigger] row@[k] <= 0xFFFF by {
            assert(0 <= above@[16 + k] <= 0xFFFF);
        }
        assert forall|k: int| 0 <= k < column@.len() implies 0 <= #[trigger] column@[k] <= 0xFFFF by {
            assert(0 <= left@[16 + k] <= 0xFFFF);
        }
        assert(0 <= above@[15] <= 0xFFFF);
        lemma_sides(tb.tx_size);
        assert(block.w * block.h <= 4096);
    }
    match IntraMode::from_index(tb.mode as u8) {
        None => Ok(Vec::new()),
        Some(mode) => {
            proof {
                lemma_mode_of(mode);
                block.lemma_suits(mode);
                if mode.slanted() {
                    lemma_slanted(mode, tb.angle_delta as int);
                }
            }
            predict_intra_block(mode, &block, s.bit_depth)
        },
    }
}

impl Outlook {
    /// Whether a transform block starts in the plane, with samples where it says there
    /// are some, and a palette of colours of the bit depth.
    pub open spec fn holds(self, t: TxAt) -> bool {
        &&& self.p.has(t.x, t.y)
        &&& t.have_left ==> t.x >= 1
        &&& t.have_above ==> t.y >= 1
        &&& t.palette matches Some(v) ==> v.colours.len() == 8 && under(v.colours, p2(self.depth))
    }
}

/// A sample inside a plane of samples of `depth` bits is one.
proof fn lemma_sample_fits(p: Samples, depth: int, x: int, y: int)
    requires
        p.wf(),
        p.fits(depth),
        p.has(x, y),
    ensures
        0 <= p.sample(x, y) < p2(depth),
{
    lemma_raster(y, x, p.width, p.height);
}

/// The samples around a block are of the bit depth.
proof fn lemma_edges_fit(o: Outlook, t: TxAt, i: int)
    requires
        o.p.wf(),
        8 <= o.depth <= 12,
        o.p.fits(o.depth),
        o.holds(t),
        i >= 0,
    ensures
        0 <= o.above(t, i) < p2(o.depth),
        0 <= o.left(t, i) < p2(o.depth),
        0 <= o.corner(t) < p2(o.depth),
        p2(o.depth) <= 4096,
{
    lemma_p2_values();
    lemma_p2_mono(8, o.depth);
    lemma_p2_mono(o.depth, 12);
    lemma_p2_add(o.depth - 1, 1);
    lemma_p2_mono(7, o.depth - 1);
    let (x, y) = (t.x, t.y);
    if t.have_above {
        let extent = if o.above_right(t) {
            2 * t.size.w()
        } else {
            t.size.w()
        };
        lemma_sides(t.size);
        lemma_sample_fits(o.p, o.depth, min(x + i, min(x + extent - 1, o.p.width - 1)), y - 1);
        lemma_sample_fits(o.p, o.depth, x, y - 1);
    }
    if t.have_left {
        let extent = if o.below_left(t) {
            2 * t.size.h()
        } else {
            t.size.h()
        };
        lemma_sides(t.size);
        lemma_sample_fits(o.p, o.depth, x - 1, min(y + i, min(y + extent - 1, o.p.height - 1)));
        lemma_sample_fits(o.p, o.depth, x - 1, y);
    }
    if t.have_above && t.have_left {
        lemma_sample_fits(o.p, o.depth, x - 1, y - 1);
    }
}

/// A sum of neighbours is no more than as many times the greatest.
proof fn lemma_edge_sum(s: Seq<i32>, n: int, top: int)
    requires
        top >= 0,
        forall|i: int| 0 <= i < s.len() ==> 0 <= #[trigger] s[i] <= top,
        n >= 0,
    ensures
        0 <= edge_sum(s, n) <= n * top,
    decreases n,
{
    if n > 0 {
        lemma_edge_sum(s, n - 1, top);
        assert((n - 1) * top + top == n * top) by (nonlinear_arith);
        if n - 1 < s.len() {
            assert(0 <= s[n - 1] <= top);
        }
    } else {
        assert(n * top == 0) by (nonlinear_arith)
            requires
                n == 0,
        ;
    }
}

/// An average is no more than the greatest of what is averaged.
proof fn lemma_average(a: int, l: int, w: int, h: int, top: int)
    requires
        w > 0,
        h > 0,
        0 <= a <= w * top,
        0 <= l <= h * top,
    ensures
        0 <= (l + a + (w + h) / 2) / (w + h) <= top,
{
    let n = w + h;
    let x = l + a + n / 2;
    assert(w * top + h * top == n * top) by (nonlinear_arith)
        requires
            n == w + h,
    ;
    assert(0 <= x / n <= top) by (nonlinear_arith)
        requires
            n > 0,
            0 <= x < n * top + n,
    ;
}

/// A block that needs no edge filtering is predicted by samples of the bit depth.
proof fn lemma_plain_fits(o: Outlook, t: TxAt, mode: IntraMode, i: int, j: int)
    requires
        o.p.wf(),
        8 <= o.depth <= 12,
        o.p.fits(o.depth),
        o.holds(t),
    ensures
        0 <= o.plain(t, mode, i, j) < p2(o.depth),
{
    let (w, h) = (t.size.w(), t.size.h());
    let top = p2(o.depth) - 1;
    lemma_sides(t.size);
    lemma_edges_fit(o, t, 0);
    lemma_p2_values();
    lemma_p2_add(o.depth - 1, 1);
    lemma_p2_mono(7, o.depth - 1);
    let above = o.above_edge(t).subrange(16, 16 + w);
    let left = o.left_edge(t).subrange(16, 16 + h);
    assert forall|k: int| 0 <= k < above.len() implies 0 <= #[trigger] above[k] <= top by {
        lemma_edges_fit(o, t, k);
    }
    assert forall|k: int| 0 <= k < left.len() implies 0 <= #[trigger] left[k] <= top by {
        lemma_edges_fit(o, t, k);
    }
    lemma_edge_sum(above, w, top);
    lemma_edge_sum(left, h, top);
    lemma_average(edge_sum(above, w), edge_sum(left, h), w, h, top);
}

/// A prediction is made of samples of the bit depth, where the plane and the palette
/// are.
pub proof fn lemma_prediction_fits(o: Outlook, luma: Samples, tools: bool, t: TxAt)
    requires
        o.p.wf(),
        8 <= o.depth <= 12,
        o.p.fits(o.depth),
        o.holds(t),
    ensures
        under(prediction(o, luma, tools, t), p2(o.depth)),
{
    reveal(prediction);
    lemma_sides(t.size);
    lemma_edges_fit(o, t, 0);
    let all = prediction(o, luma, tools, t);
    let (w, h) = (t.size.w(), t.size.h());
    assert forall|k: int| 0 <= k < all.len() implies #[trigger] all[k] < p2(o.depth) by {
        lemma_ungrid(w, h, k);
        let (i, j) = (k / w, k % w);
        reveal_with_fuel(recursive, 1);
        reveal(mixed);
        lemma_plain_fits(o, t, mode_of(t.mode), i, j);
        let v = sample_predicted(o, luma, tools, t, k);
        match t.palette {
            Some(p) => {
                let (row, column) = (t.y + i - p.base_y, t.x + j - p.base_x);
                let at = row * p.block_w + column;
                let index = if at < p.map.len() {
                    p.map[at] as int
                } else {
                    0
                };
                if index < 8 {
                    assert(p.colours[index] < p2(o.depth));
                }
            },
            None => {},
        }
        assert(0 <= v < p2(o.depth));
    }
}

/// Predict a block with the recursive filter.
fn predict_recursive(p: &Plane, flags: &Vec<u8>, s: &Setup, tb: &TxBlock<'_>, kernel: usize) -> (r: Vec<u16>)
    requires
        s.wf(),
        p@.wf(),
        p@.width <= 0x10000,
        p@.height <= 0x10000,
        tb.wf(p@),
    ensures
        r@.len() == tb@.size.w() * tb@.size.h(),
        ({
            let o = Outlook { p: p@, flags: flags@, side: s.sb_size4 as int, depth: s.bit_depth as int };
            forall|k: int|
                0 <= k < r@.len() ==> #[trigger] r@[k] == recursive(
                    kernel as int,
                    o.above_edge(tb@),
                    o.left_edge(tb@),
                    p2(o.depth) - 1,
                    k / tb@.size.w(),
                    k % tb@.size.w(),
                )
        }),
{
    let w = tb.tx_size.width();
    let h = tb.tx_size.height();
    proof {
        lemma_sides(tb.tx_size);
        assert(w * h <= 4096);
    }
    let (above, left) = gather_edges(p, flags, s, tb);
    let out = predict_filter_intra(kernel, &above, &left, w, h, s.bit_depth);
    proof {
        let o = Outlook { p: p@, flags: flags@, side: s.sb_size4 as int, depth: s.bit_depth as int };
        assert forall|k: int| 0 <= k < out@.len() implies #[trigger] out@[k] == recursive(
            kernel as int,
            o.above_edge(tb@),
            o.left_edge(tb@),
            p2(o.depth) - 1,
            k / tb@.size.w(),
            k % tb@.size.w(),
        ) by {
            lemma_ungrid(w as int, h as int, k);
        }
    }
    out
}

/// Predict a block along a slant.
fn predict_slanted(p: &Plane, flags: &Vec<u8>, s: &Setup, tb: &TxBlock<'_>, angle: i32) -> (r: Vec<u16>)
    requires
        s.wf(),
        p@.wf(),
        p@.width <= 0x10000,
        p@.height <= 0x10000,
        tb.wf(p@),
        angle == angle_of(tb@),
        -1000 <= angle <= 1000,
    ensures
        r@.len() == tb@.size.w() * tb@.size.h(),
        ({
            let o = Outlook { p: p@, flags: flags@, side: s.sb_size4 as int, depth: s.bit_depth as int };
            forall|k: int|
                0 <= k < r@.len() ==> #[trigger] r@[k] == slant(o, s.edge_filter, tb@).predicted(
                    o.above_edge(tb@),
                    o.left_edge(tb@),
                    k / tb@.size.w(),
                    k % tb@.size.w(),
                )
        }),
{
    let w = tb.tx_size.width();
    let h = tb.tx_size.height();
    proof {
        lemma_sides(tb.tx_size);
        assert(w * h <= 4096);
    }
    let (mut above, mut left) = gather_edges(p, flags, s, tb);
    let avail_above = (p.width() - tb.x) as i32;
    let avail_left = (p.height() - tb.y) as i32;
    proof {
        let o = Outlook { p: p@, flags: flags@, side: s.sb_size4 as int, depth: s.bit_depth as int };
        assert(direction(
            angle,
            w,
            h,
            tb.have_left,
            tb.have_above,
            tb.smooth,
            s.edge_filter,
            avail_above,
            avail_left,
            s.bit_depth,
        ) == slant(o, s.edge_filter, tb@));
    }
    predict_directional(
        angle,
        &mut above,
        &mut left,
        w,
        h,
        tb.have_left,
        tb.have_above,
        tb.smooth,
        s.edge_filter,
        avail_above,
        avail_left,
        s.bit_depth,
    )
}

/// Predict a transform block. `luma` is the first plane, which chroma may be
/// predicted from.
pub fn predict(p: &Plane, luma: &Plane, flags: &Vec<u8>, s: &Setup, tb: &TxBlock<'_>) -> (r: Outcome<Vec<u16>>)
    requires
        s.wf(),
        p@.wf(),
        luma@.wf(),
        p@.width <= 0x10000,
        p@.height <= 0x10000,
        tb.wf(p@),
    ensures
        r is Ok,
        r->Ok_0@ == prediction(
            (Outlook { p: p@, flags: flags@, side: s.sb_size4 as int, depth: s.bit_depth as int }),
            luma@,
            s.edge_filter,
            tb@,
        ),
        r->Ok_0@.len() == tb@.size.w() * tb@.size.h(),
{
    let ghost o = Outlook { p: p@, flags: flags@, side: s.sb_size4 as int, depth: s.bit_depth as int };
    let ghost want = prediction(o, luma@, s.edge_filter, tb@);
    proof {
        reveal(prediction);
        lemma_sides(tb.tx_size);
    }
    if let Some(v) = tb.palette {
        let out = predict_palette(&v, tb, Ghost(p@));
        assert(out@ =~= want);
        return Ok(out);
    }
    if let Some(kernel) = tb.filter_intra {
        let out = predict_recursive(p, flags, s, tb, kernel);
        assert(out@ =~= want);
        return Ok(out);
    }
    let mut angle: i32 = 90;
    if let Some(base) = mode_base_angle(tb.mode) {
        angle = base + tb.angle_delta * ANGLE_STEP;
    }
    if angle != 90 && angle != 180 {
        let out = predict_slanted(p, flags, s, tb, angle);
        assert(out@ =~= want);
        return Ok(out);
    }
    let values = predict_plain(p, flags, s, tb)?;
    match tb.cfl_alpha {
        Some(alpha) => {
            let ghost before = values@;
            let out = apply_cfl(luma, tb, values, alpha, s.bit_depth);
            assert(out@ =~= want);
            Ok(out)
        },
        None => {
            assert(values@ =~= want);
            Ok(values)
        },
    }
}

} // verus!
