//! What the stream says about a block before its residual: its modes, its palette
//! and its colour maps.
use super::bits::{lemma_log2, log2};
use super::coeff::{next, Coded};
use super::colours::{
    colour_maps, no_colours, no_palettes, palettes, palettes_fit, read_palette_mode_info, read_palette_tokens, Palettes,
    PalettesAt,
};
use super::modes::{
    Stream, ROW_ANGLE, ROW_CFL_ALPHA, ROW_CFL_SIGN, ROW_FILTER, ROW_FILTER_MODE, ROW_SKIP_FLAG, ROW_UV, ROW_UV_CFL,
    ROW_Y_MODE,
};
use super::units::{lemma_grid, Unit};
use crate::error::Outcome;
use crate::math::{lemma_p2_add, lemma_p2_mono, lemma_p2_pos, lemma_p2_values, lemma_p2_wide, max};
use vstd::prelude::*;

verus! {

/// What stays fixed while a tile is decoded.
#[derive(Debug, Clone, Copy)]
pub struct Setup {
    /// The bit depth of the samples.
    pub bit_depth: u8,
    /// The number of planes.
    pub num_planes: usize,
    /// The frame's width in units of four samples.
    pub mi_cols: usize,
    /// The frame's height in units of four samples.
    pub mi_rows: usize,
    /// Whether blocks may use the recursive filter.
    pub filter_intra: bool,
    /// Whether directional prediction smooths its edges.
    pub edge_filter: bool,
    /// Whether blocks may have palettes.
    pub screen_content: bool,
    /// Whether the frame is lossless.
    pub lossless: bool,
    /// Whether blocks choose their transform size.
    pub select: bool,
    /// The quantiser index of each plane's first coefficient.
    pub q_dc: [i32; 3],
    /// The quantiser index of each plane's other coefficients.
    pub q_ac: [i32; 3],
    /// The side of a superblock in units.
    pub sb_size4: usize,
}

impl Setup {
    /// The parameters are in range.
    pub open spec fn wf(&self) -> bool {
        &&& self.bit_depth == 8 || self.bit_depth == 10 || self.bit_depth == 12
        &&& self.num_planes == 1 || self.num_planes == 3
        &&& 2 <= self.mi_cols <= 0x4000
        &&& 2 <= self.mi_rows <= 0x4000
        &&& self.mi_cols % 2 == 0
        &&& self.mi_rows % 2 == 0
        &&& self.sb_size4 == 16 || self.sb_size4 == 32
    }

    /// The unit at a place.
    pub open spec fn unit(&self, units: Seq<Unit>, r: int, c: int) -> Unit {
        units[r * self.mi_cols + c]
    }

    /// Whether there is a unit for each place.
    pub open spec fn fits(&self, units: Seq<Unit>) -> bool {
        units.len() == self.mi_cols * self.mi_rows
    }

    /// Whether a place is in the frame.
    pub open spec fn has(&self, r: int, c: int) -> bool {
        0 <= r < self.mi_rows && 0 <= c < self.mi_cols
    }

    /// The unit at a place.
    pub fn unit_at(&self, units: &Vec<Unit>, r: usize, c: usize) -> (u: Unit)
        requires
            self.fits(units@),
            self.has(r as int, c as int),
        ensures
            u == self.unit(units@, r as int, c as int),
    {
        proof {
            lemma_grid(self.mi_cols as int, self.mi_rows as int, r as int, c as int);
            assert(units@.len() == units.len());
        }
        units[r * self.mi_cols + c]
    }
}

/// The logarithm of a number, rounded down; zero for zero.
pub fn floor_log2_usize(x: usize) -> (r: u32)
    ensures
        r == log2(x as int),
{
    let mut v = x;
    let mut k: u32 = 0;
    proof {
        lemma_p2_wide();
        lemma_p2_add(62, 2);
        lemma_p2_values();
        if x > 0 {
            lemma_log2(x as int);
            if log2(x as int) > 64 {
                lemma_p2_mono(64, log2(x as int));
            }
        }
    }
    while v > 1
        invariant
            k + log2(v as int) == log2(x as int),
            log2(x as int) <= 64,
        decreases v,
    {
        proof {
            lemma_log2(v as int / 2);
        }
        v = v / 2;
        k = k + 1;
    }
    k
}

/// The context of a luma mode beside or above.
pub const INTRA_MODE_CONTEXT: [usize; 13] = [0, 1, 2, 3, 4, 4, 4, 4, 3, 0, 1, 2, 0];

/// The chroma mode that is predicted from luma.
pub const UV_CFL_PRED: usize = 13;

/// The context of a luma mode; zero past the last.
pub open spec fn mode_context(mode: int) -> int {
    if 0 <= mode < 13 {
        INTRA_MODE_CONTEXT@[mode] as int
    } else {
        0
    }
}

/// The context of a luma mode.
fn context_of_mode(mode: u8) -> (r: usize)
    ensures
        r == mode_context(mode as int),
        r <= 4,
{
    if mode < 13 {
        INTRA_MODE_CONTEXT[mode as usize]
    } else {
        0
    }
}

/// Whether a block has no residual, and the stream after it.
pub open spec fn skip_flag(s: Setup, units: Seq<Unit>, st: Coded, r: int, c: int) -> (bool, Coded) {
    let above: int = if r > 0 && s.unit(units, r - 1, c).skip {
        1
    } else {
        0
    };
    let left: int = if c > 0 && s.unit(units, r, c - 1).skip {
        1
    } else {
        0
    };
    let t = next(st, false, ROW_SKIP_FLAG + above + left);
    (t.0 != 0, t.1)
}

/// Read whether a block has no residual.
fn read_skip(s: &Setup, units: &Vec<Unit>, stream: &mut Stream<'_>, r: usize, c: usize) -> (res: Outcome<bool>)
    requires
        s.wf(),
        s.fits(units@),
        s.has(r as int, c as int),
        old(stream).wf(),
    ensures
        res is Ok,
        (res->Ok_0, final(stream)@) == skip_flag(*s, units@, old(stream)@, r as int, c as int),
        final(stream).wf(),
{
    let mut ctx: usize = 0;
    if r > 0 && s.unit_at(units, r - 1, c).skip {
        ctx = ctx + 1;
    }
    if c > 0 && s.unit_at(units, r, c - 1).skip {
        ctx = ctx + 1;
    }
    let symbol = stream.pick(ROW_SKIP_FLAG + ctx)?;
    Ok(symbol != 0)
}

/// A block's luma mode, and the stream after it.
pub open spec fn luma_mode(s: Setup, units: Seq<Unit>, st: Coded, r: int, c: int) -> (int, Coded) {
    let above = if r > 0 {
        s.unit(units, r - 1, c).y_mode as int
    } else {
        0
    };
    let left = if c > 0 {
        s.unit(units, r, c - 1).y_mode as int
    } else {
        0
    };
    next(st, false, ROW_Y_MODE + 5 * mode_context(above) + mode_context(left))
}

/// Read a block's luma mode.
fn read_intra_frame_y_mode(s: &Setup, units: &Vec<Unit>, stream: &mut Stream<'_>, r: usize, c: usize) -> (res: Outcome<
    usize,
>)
    requires
        s.wf(),
        s.fits(units@),
        s.has(r as int, c as int),
        old(stream).wf(),
    ensures
        res is Ok,
        (res->Ok_0 as int, final(stream)@) == luma_mode(*s, units@, old(stream)@, r as int, c as int),
        res->Ok_0 < 13,
        final(stream).wf(),
{
    let above = if r > 0 {
        s.unit_at(units, r - 1, c).y_mode
    } else {
        0
    };
    let left = if c > 0 {
        s.unit_at(units, r, c - 1).y_mode
    } else {
        0
    };
    let k = ROW_Y_MODE + 5 * context_of_mode(above) + context_of_mode(left);
    assert(stream@.rows[k as int].len() == 14);
    stream.pick(k)
}

/// A block's angle delta, and the stream after it. One is coded for a directional
/// mode on a block of at least 8 by 8 samples.
pub open spec fn angle_delta(st: Coded, mode: int, bw4: int, bh4: int) -> (int, Coded) {
    if 1 <= mode <= 8 && bw4 >= 2 && bh4 >= 2 {
        let t = next(st, false, ROW_ANGLE + (mode - 1));
        (t.0 - 3, t.1)
    } else {
        (0, st)
    }
}

/// Read a block's angle delta.
fn read_angle_delta(stream: &mut Stream<'_>, mode: usize, bw4: usize, bh4: usize) -> (res: Outcome<i32>)
    requires
        old(stream).wf(),
    ensures
        res is Ok,
        (res->Ok_0 as int, final(stream)@) == angle_delta(old(stream)@, mode as int, bw4 as int, bh4 as int),
        -3 <= res->Ok_0 <= 3,
        final(stream).wf(),
{
    if 1 <= mode && mode <= 8 && bw4 >= 2 && bh4 >= 2 {
        let k = ROW_ANGLE + (mode - 1);
        assert(stream@.rows[k as int].len() == 8);
        let symbol = stream.pick(k)?;
        return Ok(symbol as i32 - 3);
    }
    Ok(0)
}

/// A factor's magnitude with its sign, and the stream after it; zero where it is
/// not coded. A sign is 1 for negative and 2 for positive.
pub open spec fn cfl_factor(st: Coded, sign: int, other: int) -> (int, Coded) {
    if sign != 0 {
        let t = next(st, false, ROW_CFL_ALPHA + (sign - 1) * 3 + other);
        (
            if sign == 1 {
                -(t.0 + 1)
            } else {
                t.0 + 1
            },
            t.1,
        )
    } else {
        (0, st)
    }
}

/// The two factors of a prediction from luma, and the stream after them.
pub open spec fn cfl_factors(st: Coded) -> ((int, int), Coded) {
    let t = next(st, false, ROW_CFL_SIGN as int);
    let (sign_u, sign_v) = ((t.0 + 1) / 3, (t.0 + 1) % 3);
    let u = cfl_factor(t.1, sign_u, sign_v);
    let v = cfl_factor(u.1, sign_v, sign_u);
    ((u.0, v.0), v.1)
}

/// Read a factor.
fn read_factor(stream: &mut Stream<'_>, sign: usize, other: usize) -> (res: Outcome<i32>)
    requires
        old(stream).wf(),
        sign <= 2,
        other <= 2,
    ensures
        res is Ok,
        (res->Ok_0 as int, final(stream)@) == cfl_factor(old(stream)@, sign as int, other as int),
        -16 <= res->Ok_0 <= 16,
        final(stream).wf(),
{
    if sign != 0 {
        let k = ROW_CFL_ALPHA + (sign - 1) * 3 + other;
        assert(stream@.rows[k as int].len() == 17);
        let magnitude = stream.pick(k)? as i32 + 1;
        Ok(
            if sign == 1 {
                -magnitude
            } else {
                magnitude
            },
        )
    } else {
        Ok(0)
    }
}

/// Read the two factors of a prediction from luma.
fn read_cfl_alphas(stream: &mut Stream<'_>) -> (res: Outcome<(i32, i32)>)
    requires
        old(stream).wf(),
    ensures
        res is Ok,
        ((res->Ok_0.0 as int, res->Ok_0.1 as int), final(stream)@) == cfl_factors(old(stream)@),
        -16 <= res->Ok_0.0 <= 16,
        -16 <= res->Ok_0.1 <= 16,
        final(stream).wf(),
{
    assert(stream@.rows[ROW_CFL_SIGN as int].len() == 9);
    let signs = stream.pick(ROW_CFL_SIGN)?;
    let sign_u = (signs + 1) / 3;
    let sign_v = (signs + 1) % 3;
    let u = read_factor(stream, sign_u, sign_v)?;
    let v = read_factor(stream, sign_v, sign_u)?;
    Ok((u, v))
}

/// Whether chroma may be predicted from luma: in a lossless frame on blocks of 4 by
/// 4 samples, else on those of up to 32 by 32.
pub open spec fn cfl_allowed(lossless: bool, bw4: int, bh4: int) -> bool {
    if lossless {
        bw4 == 1 && bh4 == 1
    } else {
        bw4 <= 8 && bh4 <= 8
    }
}

/// A block's chroma mode, the factors where it is predicted from luma, and the
/// stream after them.
pub open spec fn chroma_mode(s: Setup, st: Coded, y_mode: int, bw4: int, bh4: int) -> (int, Option<(int, int)>, Coded) {
    let t = next(
        st,
        false,
        if cfl_allowed(s.lossless, bw4, bh4) {
            ROW_UV_CFL + y_mode
        } else {
            ROW_UV + y_mode
        },
    );
    if t.0 == UV_CFL_PRED {
        let f = cfl_factors(t.1);
        (t.0, Some(f.0), f.1)
    } else {
        (t.0, None, t.1)
    }
}

/// What factors say.
pub open spec fn factors_at(cfl: Option<(i32, i32)>) -> Option<(int, int)> {
    match cfl {
        Some((u, v)) => Some((u as int, v as int)),
        None => None,
    }
}

/// Read a block's chroma mode.
fn read_uv_mode(s: &Setup, stream: &mut Stream<'_>, y_mode: usize, bw4: usize, bh4: usize) -> (res: Outcome<
    (usize, Option<(i32, i32)>),
>)
    requires
        old(stream).wf(),
        y_mode < 13,
    ensures
        res is Ok,
        (res->Ok_0.0 as int, factors_at(res->Ok_0.1), final(stream)@) == chroma_mode(
            *s,
            old(stream)@,
            y_mode as int,
            bw4 as int,
            bh4 as int,
        ),
        res->Ok_0.0 <= 13,
        res->Ok_0.1 is Some <==> res->Ok_0.0 == 13,
        res->Ok_0.1 matches Some((u, v)) ==> -16 <= u <= 16 && -16 <= v <= 16,
        final(stream).wf(),
{
    let allowed = if s.lossless {
        bw4 == 1 && bh4 == 1
    } else {
        bw4 <= 8 && bh4 <= 8
    };
    let k = if allowed {
        ROW_UV_CFL + y_mode
    } else {
        ROW_UV + y_mode
    };
    assert(stream@.rows[k as int].len() <= 15);
    let uv = stream.pick(k)?;
    if uv == UV_CFL_PRED {
        let factors = read_cfl_alphas(stream)?;
        Ok((uv, Some(factors)))
    } else {
        Ok((uv, None))
    }
}

/// The index of a block size; the largest square where there is none.
pub open spec fn size_index(bw4: int, bh4: int) -> int {
    if bw4 == 1 {
        if bh4 == 1 {
            0
        } else if bh4 == 2 {
            1
        } else if bh4 == 4 {
            16
        } else {
            15
        }
    } else if bw4 == 2 {
        if bh4 == 1 {
            2
        } else if bh4 == 2 {
            3
        } else if bh4 == 4 {
            4
        } else if bh4 == 8 {
            18
        } else {
            15
        }
    } else if bw4 == 4 {
        if bh4 == 1 {
            17
        } else if bh4 == 2 {
            5
        } else if bh4 == 4 {
            6
        } else if bh4 == 8 {
            7
        } else if bh4 == 16 {
            20
        } else {
            15
        }
    } else if bw4 == 8 {
        if bh4 == 2 {
            19
        } else if bh4 == 4 {
            8
        } else if bh4 == 8 {
            9
        } else if bh4 == 16 {
            10
        } else {
            15
        }
    } else if bw4 == 16 {
        if bh4 == 4 {
            21
        } else if bh4 == 8 {
            11
        } else if bh4 == 16 {
            12
        } else if bh4 == 32 {
            13
        } else {
            15
        }
    } else if bw4 == 32 && bh4 == 16 {
        14
    } else {
        15
    }
}

/// The index of a block size, `bw4` by `bh4` units of four samples; the largest
/// square where there is none.
pub fn block_size_index(bw4: usize, bh4: usize) -> (r: usize)
    ensures
        r == size_index(bw4 as int, bh4 as int),
        r < 22,
{
    match (bw4, bh4) {
        (1, 1) => 0,
        (1, 2) => 1,
        (2, 1) => 2,
        (2, 2) => 3,
        (2, 4) => 4,
        (4, 2) => 5,
        (4, 4) => 6,
        (4, 8) => 7,
        (8, 4) => 8,
        (8, 8) => 9,
        (8, 16) => 10,
        (16, 8) => 11,
        (16, 16) => 12,
        (16, 32) => 13,
        (32, 16) => 14,
        (32, 32) => 15,
        (1, 4) => 16,
        (4, 1) => 17,
        (2, 8) => 18,
        (8, 2) => 19,
        (4, 16) => 20,
        (16, 4) => 21,
        _ => 15,
    }
}

/// The kernel of the recursive filter, where luma uses it, and the stream after
/// it. It is coded for blocks without slant of up to 32 samples a side.
pub open spec fn filter_kernel(s: Setup, st: Coded, y_mode: int, bw4: int, bh4: int) -> (Option<int>, Coded) {
    if s.filter_intra && y_mode == 0 && 4 * max(bw4, bh4) <= 32 {
        let t = next(st, false, ROW_FILTER + size_index(bw4, bh4));
        if t.0 != 0 {
            let u = next(t.1, false, ROW_FILTER_MODE as int);
            (Some(u.0), u.1)
        } else {
            (None, t.1)
        }
    } else {
        (None, st)
    }
}

/// What a kernel says.
pub open spec fn kernel_at(kernel: Option<usize>) -> Option<int> {
    match kernel {
        Some(k) => Some(k as int),
        None => None,
    }
}

/// Read the kernel of the recursive filter.
fn read_filter_intra(s: &Setup, stream: &mut Stream<'_>, y_mode: usize, bw4: usize, bh4: usize) -> (res: Outcome<
    Option<usize>,
>)
    requires
        old(stream).wf(),
        bw4 <= 32,
        bh4 <= 32,
    ensures
        res is Ok,
        (kernel_at(res->Ok_0), final(stream)@) == filter_kernel(
            *s,
            old(stream)@,
            y_mode as int,
            bw4 as int,
            bh4 as int,
        ),
        res->Ok_0 matches Some(k) ==> k < 5,
        final(stream).wf(),
{
    let longest = if bw4 > bh4 {
        bw4
    } else {
        bh4
    };
    if s.filter_intra && y_mode == 0 && 4 * longest <= 32 {
        let size = block_size_index(bw4, bh4);
        let used = stream.pick(ROW_FILTER + size)?;
        if used != 0 {
            assert(stream@.rows[ROW_FILTER_MODE as int].len() == 6);
            let mode = stream.pick(ROW_FILTER_MODE)?;
            return Ok(Some(mode));
        }
    }
    Ok(None)
}

/// What the stream says about a block.
#[derive(Debug)]
pub struct ModeInfo {
    /// Whether it has no residual.
    pub skip: bool,
    /// The luma mode.
    pub y_mode: usize,
    /// The chroma mode.
    pub uv_mode: usize,
    /// The luma angle delta.
    pub y_delta: i32,
    /// The chroma angle delta.
    pub uv_delta: i32,
    /// The kernel of the recursive filter, where luma uses it.
    pub filter_intra: Option<usize>,
    /// The factors of a prediction of chroma from luma.
    pub cfl: Option<(i32, i32)>,
    /// The palettes.
    pub palettes: Palettes,
    /// The luma colour map.
    pub map_y: Vec<u8>,
    /// The chroma colour map.
    pub map_uv: Vec<u8>,
}

/// What the stream says about a block.
#[verifier::ext_equal]
pub struct ModeInfoAt {
    /// Whether it has no residual.
    pub skip: bool,
    /// The luma mode.
    pub y_mode: int,
    /// The chroma mode.
    pub uv_mode: int,
    /// The luma angle delta.
    pub y_delta: int,
    /// The chroma angle delta.
    pub uv_delta: int,
    /// The kernel of the recursive filter, where luma uses it.
    pub filter_intra: Option<int>,
    /// The factors of a prediction of chroma from luma.
    pub cfl: Option<(int, int)>,
    /// The palettes.
    pub palettes: PalettesAt,
    /// The luma colour map.
    pub map_y: Seq<u8>,
    /// The chroma colour map.
    pub map_uv: Seq<u8>,
}

impl View for ModeInfo {
    type V = ModeInfoAt;

    open spec fn view(&self) -> ModeInfoAt {
        ModeInfoAt {
            skip: self.skip,
            y_mode: self.y_mode as int,
            uv_mode: self.uv_mode as int,
            y_delta: self.y_delta as int,
            uv_delta: self.uv_delta as int,
            filter_intra: kernel_at(self.filter_intra),
            cfl: factors_at(self.cfl),
            palettes: self.palettes@,
            map_y: self.map_y@,
            map_uv: self.map_uv@,
        }
    }
}

impl ModeInfo {
    /// The modes are modes, and the maps are as large as the block.
    pub open spec fn wf(&self, bw4: int, bh4: int) -> bool {
        &&& self.y_mode < 13
        &&& self.uv_mode <= 13
        &&& self.uv_mode == 13 <==> self.cfl is Some
        &&& -3 <= self.y_delta <= 3
        &&& -3 <= self.uv_delta <= 3
        &&& self.filter_intra matches Some(k) ==> k < 5
        &&& self.cfl matches Some((u, v)) ==> -16 <= u <= 16 && -16 <= v <= 16
        &&& self.palettes.size_y == 0 || 2 <= self.palettes.size_y <= 8
        &&& self.palettes.size_uv == 0 || 2 <= self.palettes.size_uv <= 8
        &&& self.palettes.size_y > 0 || self.palettes.size_uv > 0 ==> bw4 <= 16 && bh4 <= 16
        &&& self.palettes.size_y > 0 ==> self.map_y@.len() == (4 * bw4) * (4 * bh4)
        &&& self.palettes.size_uv > 0 ==> self.map_uv@.len() == (4 * bw4) * (4 * bh4)
    }
}

/// Whether a block may have palettes.
pub open spec fn palette_allowed(s: Setup, bw4: int, bh4: int) -> bool {
    s.screen_content && 2 <= bw4 <= 16 && 2 <= bh4 <= 16
}

/// The chroma mode of a block, its factors and its angle delta, and the stream after
/// them; zero where there is no chroma.
pub open spec fn chroma_info(s: Setup, st: Coded, y_mode: int, bw4: int, bh4: int) -> (
    int,
    Option<(int, int)>,
    int,
    Coded,
) {
    if s.num_planes > 1 {
        let m = chroma_mode(s, st, y_mode, bw4, bh4);
        let d = angle_delta(m.2, m.0, bw4, bh4);
        (m.0, m.1, d.0, d.1)
    } else {
        (0, None, 0, st)
    }
}

/// What the stream says about a block at a place, and the stream after it.
#[verifier::opaque]
pub open spec fn mode_info(s: Setup, units: Seq<Unit>, st: Coded, r: int, c: int, bw4: int, bh4: int) -> (
    ModeInfoAt,
    Coded,
) {
    let skip = skip_flag(s, units, st, r, c);
    let y = luma_mode(s, units, skip.1, r, c);
    let y_delta = angle_delta(y.1, y.0, bw4, bh4);
    let uv = chroma_info(s, y_delta.1, y.0, bw4, bh4);
    let p = if palette_allowed(s, bw4, bh4) {
        palettes(s, units, uv.3, r, c, bw4, bh4, y.0, uv.0)
    } else {
        (no_palettes(), uv.3)
    };
    let f = if p.0.size_y > 0 {
        (None, p.1)
    } else {
        filter_kernel(s, p.1, y.0, bw4, bh4)
    };
    let maps = colour_maps(f.1, p.0, 4 * bw4, 4 * bh4);
    (
        ModeInfoAt {
            skip: skip.0,
            y_mode: y.0,
            uv_mode: uv.0,
            y_delta: y_delta.0,
            uv_delta: uv.2,
            filter_intra: f.0,
            cfl: uv.1,
            palettes: p.0,
            map_y: maps.0,
            map_uv: maps.1,
        },
        maps.2,
    )
}

/// Read the chroma mode of a block, its factors and its angle delta.
fn read_chroma_info(s: &Setup, stream: &mut Stream<'_>, y_mode: usize, bw4: usize, bh4: usize) -> (res: Outcome<
    (usize, Option<(i32, i32)>, i32),
>)
    requires
        old(stream).wf(),
        y_mode < 13,
    ensures
        res is Ok,
        (res->Ok_0.0 as int, factors_at(res->Ok_0.1), res->Ok_0.2 as int, final(stream)@) == chroma_info(
            *s,
            old(stream)@,
            y_mode as int,
            bw4 as int,
            bh4 as int,
        ),
        res->Ok_0.0 <= 13,
        res->Ok_0.1 is Some <==> res->Ok_0.0 == 13,
        res->Ok_0.1 matches Some((u, v)) ==> -16 <= u <= 16 && -16 <= v <= 16,
        -3 <= res->Ok_0.2 <= 3,
        final(stream).wf(),
{
    if s.num_planes > 1 {
        let (uv, cfl) = read_uv_mode(s, stream, y_mode, bw4, bh4)?;
        let delta = read_angle_delta(stream, uv, bw4, bh4)?;
        Ok((uv, cfl, delta))
    } else {
        Ok((0, None, 0))
    }
}

/// Read what the stream says about a block.
pub fn read_mode_info(
    s: &Setup,
    units: &Vec<Unit>,
    stream: &mut Stream<'_>,
    r: usize,
    c: usize,
    bw4: usize,
    bh4: usize,
) -> (res: Outcome<ModeInfo>)
    requires
        s.wf(),
        s.fits(units@),
        palettes_fit(units@, s.bit_depth as int),
        s.has(r as int, c as int),
        old(stream).wf(),
        1 <= bw4 <= 32,
        1 <= bh4 <= 32,
    ensures
        res is Ok,
        (res->Ok_0@, final(stream)@) == mode_info(
            *s,
            units@,
            old(stream)@,
            r as int,
            c as int,
            bw4 as int,
            bh4 as int,
        ),
        res->Ok_0.wf(bw4 as int, bh4 as int),
        res->Ok_0.palettes@.fits(s.bit_depth as int),
        final(stream).wf(),
{
    proof {
        reveal(mode_info);
        lemma_p2_pos(s.bit_depth as int);
    }
    let skip = read_skip(s, units, stream, r, c)?;
    let y_mode = read_intra_frame_y_mode(s, units, stream, r, c)?;
    let y_delta = read_angle_delta(stream, y_mode, bw4, bh4)?;
    let (uv_mode, cfl, uv_delta) = read_chroma_info(s, stream, y_mode, bw4, bh4)?;
    let none: [u16; 8] = [0; 8];
    assert(none@ =~= no_colours());
    let p = if s.screen_content && 2 <= bw4 && bw4 <= 16 && 2 <= bh4 && bh4 <= 16 {
        read_palette_mode_info(s, units, stream, r, c, bw4, bh4, y_mode, uv_mode)?
    } else {
        Palettes { size_y: 0, size_uv: 0, colours_y: none, colours_u: none, colours_v: none }
    };
    let filter_intra = if p.size_y > 0 {
        None
    } else {
        read_filter_intra(s, stream, y_mode, bw4, bh4)?
    };
    let (map_y, map_uv) = read_palette_tokens(stream, &p, 4 * bw4, 4 * bh4)?;
    Ok(ModeInfo { skip, y_mode, uv_mode, y_delta, uv_delta, filter_intra, cfl, palettes: p, map_y, map_uv })
}

} // verus!
