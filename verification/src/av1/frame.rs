//! The AV1 frame header, restricted to intra frames.
//!
//! A still is a key frame, which is intra: no reference selection, no motion, no
//! skip mode. What remains is the size, the quantizer, segmentation, the
//! loop-filter, CDEF and restoration parameters, the transform mode, and the tile
//! layout. The parse still walks every field in order, because the syntax has no
//! length prefixes: whether the frame is coded losslessly decides how many bits the
//! loop filter takes.
use super::bits::{BitReader, Cursor, bits, ended, flag_at, lemma_flag_within, ns_at, su_at};
use super::seq::{SELECT, SequenceHeader, SequenceModel, OperatingPoint};
use crate::error::{Fault, Outcome, PixelsError, malformed, unsupported};
use crate::math::{clamp, clamp_i32, lemma_p2_mono, lemma_p2_pos, lemma_p2_values, max, min, p2, pow2_u32, shr_u32};
use vstd::prelude::*;

verus! {

/// A key frame.
pub const KEY_FRAME: u8 = 0;
/// An inter frame.
pub const INTER_FRAME: u8 = 1;
/// An intra-only frame.
pub const INTRA_ONLY_FRAME: u8 = 2;
/// A switch frame.
pub const SWITCH_FRAME: u8 = 3;

/// The numerator of the super-resolution scale.
pub const SUPERRES_NUM: u32 = 8;
/// The smallest denominator of the super-resolution scale.
pub const SUPERRES_DENOM_MIN: u32 = 9;

/// The most superblock columns or rows a frame can be cut into.
pub const MAX_TILE_COUNT: u32 = 64;

/// Segments a frame can have.
pub const MAX_SEGMENTS: usize = 8;
/// Features a segment can have.
pub const SEG_LVL_MAX: usize = 8;
/// Bits of each segment feature's value.
pub const SEG_FEATURE_BITS: [u32; 8] = [8, 6, 6, 6, 6, 3, 0, 0];
/// Whether each segment feature's value is signed.
pub const SEG_FEATURE_SIGNED: [bool; 8] = [true, true, true, true, true, false, false, false];
/// The largest magnitude of each segment feature's value.
pub const SEG_FEATURE_MAX: [i32; 8] = [255, 63, 63, 63, 63, 7, 0, 0];

/// No loop restoration.
pub const RESTORE_NONE: u8 = 0;
/// The restoration type each coded value stands for.
pub const REMAP_LR_TYPE: [u8; 4] = [0, 3, 1, 2];
/// The largest restoration unit.
pub const RESTORATION_TILESIZE_MAX: u32 = 256;

/// The tile layout.
#[derive(Debug, Clone)]
pub struct TileInfo {
    /// The number of tile columns, as a power of two rounded up.
    pub cols_log2: u32,
    /// The number of tile rows, as a power of two rounded up.
    pub rows_log2: u32,
    /// Number of tile columns.
    pub cols: u32,
    /// Number of tile rows.
    pub rows: u32,
    /// Superblock column at which each tile starts, and the end of the last.
    pub col_starts_sb: Vec<u32>,
    /// Superblock row at which each tile starts, and the end of the last.
    pub row_starts_sb: Vec<u32>,
    /// Which tile carries the CDF update.
    pub context_update_tile_id: u32,
    /// Bytes used to code each tile's size in the tile group.
    pub tile_size_bytes: u32,
}

/// Dequantizer parameters.
#[derive(Debug, Clone, Copy, PartialEq, Eq, Structural)]
pub struct Quantization {
    /// Base quantizer index.
    pub base_q_idx: u8,
    /// Luma DC delta.
    pub delta_q_y_dc: i32,
    /// Chroma-U DC delta.
    pub delta_q_u_dc: i32,
    /// Chroma-U AC delta.
    pub delta_q_u_ac: i32,
    /// Chroma-V DC delta.
    pub delta_q_v_dc: i32,
    /// Chroma-V AC delta.
    pub delta_q_v_ac: i32,
    /// Whether quantizer matrices are used.
    pub using_qmatrix: bool,
    /// Luma matrix index.
    pub qm_y: u8,
    /// Chroma-U matrix index.
    pub qm_u: u8,
    /// Chroma-V matrix index.
    pub qm_v: u8,
}

/// Segmentation parameters.
#[derive(Debug, Clone, Copy)]
pub struct Segmentation {
    /// Whether segmentation is on.
    pub enabled: bool,
    /// Per-segment, per-feature enable flags.
    pub feature_enabled: [[bool; 8]; 8],
    /// Per-segment, per-feature clipped values.
    pub feature_data: [[i32; 8]; 8],
}

/// Loop-filter parameters.
#[derive(Debug, Clone, Copy)]
pub struct LoopFilter {
    /// Filter level for luma vertical, luma horizontal, U and V edges.
    pub level: [u8; 4],
    /// Sharpness, 0..=7.
    pub sharpness: u8,
    /// Whether reference and mode deltas are enabled.
    pub delta_enabled: bool,
    /// Per-reference-frame deltas.
    pub ref_deltas: [i32; 8],
    /// Per-mode deltas.
    pub mode_deltas: [i32; 2],
}

/// CDEF parameters.
#[derive(Debug, Clone)]
pub struct Cdef {
    /// The damping.
    pub damping: u32,
    /// The number of filter strengths, as a power of two.
    pub bits: u32,
    /// Luma primary strengths.
    pub y_pri_strength: Vec<u32>,
    /// Luma secondary strengths.
    pub y_sec_strength: Vec<u32>,
    /// Chroma primary strengths.
    pub uv_pri_strength: Vec<u32>,
    /// Chroma secondary strengths.
    pub uv_sec_strength: Vec<u32>,
}

/// Loop-restoration parameters.
#[derive(Debug, Clone, Copy)]
pub struct LoopRestoration {
    /// Restoration type per plane.
    pub frame_restoration_type: [u8; 3],
    /// Restoration unit size per plane.
    pub unit_size: [u32; 3],
    /// Whether any plane uses restoration.
    pub uses_lr: bool,
}

/// Film-grain parameters.
#[derive(Debug, Clone, Copy, PartialEq, Eq, Structural)]
pub struct FilmGrain {
    /// Whether grain is applied to this frame.
    pub apply_grain: bool,
    /// The seed of the grain.
    pub grain_seed: u16,
}

/// The transform mode.
#[derive(Debug, Clone, Copy, PartialEq, Eq, Structural)]
pub enum TxMode {
    /// Every transform is 4x4: lossless frames.
    Only4x4,
    /// Every block takes the largest transform that fits.
    Largest,
    /// Each block codes its transform size.
    Select,
}

/// A fully parsed intra frame header.
#[derive(Debug, Clone)]
pub struct FrameHeader {
    /// [`KEY_FRAME`] or [`INTRA_ONLY_FRAME`].
    pub frame_type: u8,
    /// Whether the frame is shown.
    pub show_frame: bool,
    /// Whether the frame is later showable.
    pub showable_frame: bool,
    /// Whether error-resilient mode is set.
    pub error_resilient_mode: bool,
    /// Whether CDF updates are disabled for the frame.
    pub disable_cdf_update: bool,
    /// Whether screen-content tools are allowed.
    pub allow_screen_content_tools: bool,
    /// Coded frame width, after any super-resolution downscale.
    pub frame_width: u32,
    /// Coded frame height.
    pub frame_height: u32,
    /// Width before the super-resolution downscale.
    pub upscaled_width: u32,
    /// Display width.
    pub render_width: u32,
    /// Display height.
    pub render_height: u32,
    /// The denominator of the super-resolution scale.
    pub superres_denom: u32,
    /// Frame width in 4x4 mode-info units.
    pub mi_cols: u32,
    /// Frame height in 4x4 mode-info units.
    pub mi_rows: u32,
    /// Whether intra block copy is allowed.
    pub allow_intrabc: bool,
    /// Whether the frame-end CDF update is disabled.
    pub disable_frame_end_update_cdf: bool,
    /// The tile layout.
    pub tile_info: TileInfo,
    /// Quantizer parameters.
    pub quantization: Quantization,
    /// Segmentation parameters.
    pub segmentation: Segmentation,
    /// Whether per-block delta-Q is present.
    pub delta_q_present: bool,
    /// Delta-Q resolution.
    pub delta_q_res: u32,
    /// Whether per-block delta-LF is present.
    pub delta_lf_present: bool,
    /// Delta-LF resolution.
    pub delta_lf_res: u32,
    /// Whether delta-LF is signalled per edge type.
    pub delta_lf_multi: bool,
    /// Whether every segment is coded losslessly.
    pub coded_lossless: bool,
    /// Whether the frame is lossless and unscaled.
    pub all_lossless: bool,
    /// Per-segment lossless flags.
    pub lossless: [bool; 8],
    /// Loop-filter parameters.
    pub loop_filter: LoopFilter,
    /// CDEF parameters.
    pub cdef: Cdef,
    /// Loop-restoration parameters.
    pub loop_restoration: LoopRestoration,
    /// The transform mode.
    pub tx_mode: TxMode,
    /// Whether the reduced transform set is used.
    pub reduced_tx_set: bool,
    /// Film-grain parameters.
    pub film_grain: FilmGrain,
}

/// The frame's type and how it is shown.
pub struct StartModel {
    /// Whether the header only shows an earlier frame.
    pub existing: bool,
    /// The frame type.
    pub kind: int,
    /// Whether the frame is shown.
    pub show: bool,
    /// Whether the frame is later showable.
    pub showable: bool,
    /// Whether error-resilient mode is set.
    pub resilient: bool,
}

/// The frame's type and how it is shown, at `pos`, and where that ends.
#[verifier::opaque]
pub open spec fn start_at(data: Seq<u8>, pos: int, m: SequenceModel) -> (StartModel, int) {
    if m.reduced {
        (
            StartModel {
                existing: false,
                kind: KEY_FRAME as int,
                show: true,
                showable: false,
                resilient: false,
            },
            pos,
        )
    } else {
        let kind = bits(data, pos + 1, 2);
        let show = flag_at(data, pos + 3);
        let p1 = pos + 4 + if show && m.operating.model && !m.operating.equal_interval {
            m.operating.presentation
        } else {
            0
        };
        let p2 = p1 + if show {
            0int
        } else {
            1
        };
        let implied = kind == SWITCH_FRAME || (kind == KEY_FRAME && show);
        (
            StartModel {
                existing: flag_at(data, pos),
                kind,
                show,
                showable: if show {
                    kind != KEY_FRAME
                } else {
                    flag_at(data, p1)
                },
                resilient: implied || flag_at(data, p2),
            },
            p2 + if implied {
                0int
            } else {
                1
            },
        )
    }
}

/// Where the buffer removal times of the first `n` operating points end: one is
/// coded for each point that selects no layers, or selects this frame's.
pub open spec fn removal_end(
    pos: int,
    points: Seq<OperatingPoint>,
    n: int,
    temporal_id: int,
    spatial_id: int,
    len: int,
) -> int
    decreases n,
{
    if n <= 0 {
        pos
    } else {
        let p = removal_end(pos, points, n - 1, temporal_id, spatial_id, len);
        let idc = points[n - 1].idc as int;
        if idc == 0 || ((idc / p2(temporal_id)) % 2 != 0 && (idc / p2(spatial_id + 8)) % 2 != 0) {
            p + len
        } else {
            p
        }
    }
}

/// What the fields between the frame type and the frame size say.
pub struct ControlModel {
    /// Whether CDF updates are disabled.
    pub freeze: bool,
    /// Whether screen-content tools are allowed.
    pub screen_content: bool,
    /// Whether the frame codes its own size.
    pub size_override: bool,
}

/// The fields between the frame type and the frame size, at `pos`, and where they
/// end.
#[verifier::opaque]
pub open spec fn control_at(
    data: Seq<u8>,
    pos: int,
    m: SequenceModel,
    s: StartModel,
    temporal_id: int,
    spatial_id: int,
) -> (ControlModel, int) {
    let chosen = m.tools.screen_content == SELECT;
    let sct = if chosen {
        flag_at(data, pos + 1)
    } else {
        m.tools.screen_content != 0
    };
    let p1 = pos + 1 + (if chosen {
        1int
    } else {
        0
    }) + (if sct && m.tools.integer_mv == SELECT {
        1int
    } else {
        0
    }) + (if m.size.frame_ids.0 {
        m.size.frame_ids.1 + m.size.frame_ids.2
    } else {
        0
    });
    let size_override = !m.reduced && flag_at(data, p1);
    let p2 = p1 + (if m.reduced {
        0int
    } else {
        1
    }) + m.tools.hint_bits;
    let p3 = if !m.operating.model {
        p2
    } else if flag_at(data, p2) {
        removal_end(
            p2 + 1,
            m.operating.points,
            m.operating.points.len() as int,
            temporal_id,
            spatial_id,
            m.operating.removal,
        )
    } else {
        p2 + 1
    };
    (
        ControlModel { freeze: flag_at(data, pos), screen_content: sct, size_override },
        p3 + if s.kind == KEY_FRAME && s.show {
            0int
        } else {
            8
        },
    )
}

/// What the frame size says.
pub struct FrameSizeModel {
    /// Coded width.
    pub width: int,
    /// Coded height.
    pub height: int,
    /// Width before the super-resolution downscale.
    pub upscaled: int,
    /// The denominator of the super-resolution scale.
    pub denom: int,
}

impl FrameSizeModel {
    /// Frame width in 4x4 units, rounded up to a multiple of two.
    pub open spec fn mi_cols(self) -> int {
        2 * ((self.width + 7) / 8)
    }

    /// Frame height in 4x4 units, rounded up to a multiple of two.
    pub open spec fn mi_rows(self) -> int {
        2 * ((self.height + 7) / 8)
    }
}

/// The frame size at `pos`, and where it ends.
#[verifier::opaque]
pub open spec fn frame_size_at(data: Seq<u8>, pos: int, m: SequenceModel, size_override: bool) -> (
    FrameSizeModel,
    int,
) {
    let wb = m.size.size_bits.0;
    let hb = m.size.size_bits.1;
    let upscaled = if size_override {
        bits(data, pos, wb) + 1
    } else {
        m.size.max_size.0
    };
    let height = if size_override {
        bits(data, pos + wb, hb) + 1
    } else {
        m.size.max_size.1
    };
    let p1 = if size_override {
        pos + wb + hb
    } else {
        pos
    };
    let scaled = m.superres && flag_at(data, p1);
    let p2 = p1 + if m.superres {
        1int
    } else {
        0
    };
    let denom = if scaled {
        bits(data, p2, 3) + SUPERRES_DENOM_MIN
    } else {
        SUPERRES_NUM as int
    };
    (
        FrameSizeModel {
            width: (upscaled * SUPERRES_NUM + denom / 2) / denom,
            height,
            upscaled,
            denom,
        },
        p2 + if scaled {
            3int
        } else {
            0
        },
    )
}

/// The display size at `pos`, and where it ends.
pub open spec fn render_at(data: Seq<u8>, pos: int, size: FrameSizeModel) -> ((int, int), int) {
    if flag_at(data, pos) {
        ((bits(data, pos + 1, 16) + 1, bits(data, pos + 17, 16) + 1), pos + 33)
    } else {
        ((size.upscaled, size.height), pos + 1)
    }
}

/// How far `a` is above `b`.
pub open spec fn gap(a: int, b: int) -> int {
    if a > b {
        a - b
    } else {
        0
    }
}

/// The smallest `k` with `blk * 2^k >= target`.
pub open spec fn cover_log2(blk: int, target: int) -> int
    decreases gap(target, blk),
{
    if blk >= target || blk <= 0 {
        0
    } else {
        1 + cover_log2(2 * blk, target)
    }
}

/// The exponent raised from `k` by one for each set flag, up to `limit`, and where
/// the flags end.
pub open spec fn raised_at(data: Seq<u8>, pos: int, k: int, limit: int) -> (int, int)
    decreases limit - k,
{
    if k >= limit {
        (k, pos)
    } else if flag_at(data, pos) {
        raised_at(data, pos + 1, k + 1, limit)
    } else {
        (k, pos + 1)
    }
}

/// Tile starts from `start` on, `step` apart, and the end `n`.
pub open spec fn even_starts(start: int, step: int, n: int) -> Seq<u32>
    decreases gap(n, start),
{
    if start >= n || step <= 0 {
        seq![n as u32]
    } else {
        seq![start as u32] + even_starts(start + step, step, n)
    }
}

/// Tile starts from `start` on, each tile's size coded, with the largest size
/// among them and `widest`, and where they end.
pub open spec fn coded_starts(data: Seq<u8>, pos: int, start: int, limit: int, n: int, widest: int) -> (
    Seq<u32>,
    int,
    int,
)
    decreases gap(n, start),
{
    if start >= n {
        (seq![n as u32], widest, pos)
    } else {
        let (v, p) = ns_at(data, pos, min(n - start, limit));
        let size = if v < 0 {
            1
        } else {
            v + 1
        };
        let (rest, w, end) = coded_starts(data, p, start + size, limit, n, max(widest, size));
        (seq![start as u32] + rest, w, end)
    }
}

/// The superblock grid of a frame: columns, rows, and the limits a tile obeys.
pub struct Grid {
    /// Superblock columns.
    pub cols: int,
    /// Superblock rows.
    pub rows: int,
    /// The widest tile, in superblocks.
    pub max_width: int,
    /// The largest tile, in superblocks.
    pub max_area: int,
}

/// The superblock grid of a frame of this many 4x4 units.
pub open spec fn grid_of(sb128: bool, mi_cols: int, mi_rows: int) -> Grid {
    if sb128 {
        Grid { cols: (mi_cols + 31) / 32, rows: (mi_rows + 31) / 32, max_width: 32, max_area: 576 }
    } else {
        Grid { cols: (mi_cols + 15) / 16, rows: (mi_rows + 15) / 16, max_width: 64, max_area: 2304 }
    }
}

impl Grid {
    /// The fewest tile columns, as a power of two.
    pub open spec fn min_cols(self) -> int {
        cover_log2(self.max_width, self.cols)
    }

    /// The most tile columns, as a power of two.
    pub open spec fn max_cols(self) -> int {
        cover_log2(1, min(self.cols, MAX_TILE_COUNT as int))
    }

    /// The most tile rows, as a power of two.
    pub open spec fn max_rows(self) -> int {
        cover_log2(1, min(self.rows, MAX_TILE_COUNT as int))
    }

    /// The fewest tiles, as a power of two.
    pub open spec fn min_tiles(self) -> int {
        max(self.min_cols(), cover_log2(self.max_area, self.rows * self.cols))
    }

    /// The size of each of `2^k` evenly spaced tiles over `n` superblocks.
    pub open spec fn step(n: int, k: int) -> int {
        (n + p2(k) - 1) / p2(k)
    }

    /// The tallest tile that is allowed beside the widest one.
    pub open spec fn max_height(self, widest: int) -> int {
        let area = if self.min_tiles() > 0 {
            (self.rows * self.cols) / p2(self.min_tiles() + 1)
        } else {
            self.rows * self.cols
        };
        max(area / widest, 1)
    }
}

/// What the tile layout says.
#[verifier::ext_equal]
pub struct TileModel {
    /// Tile columns, as a power of two rounded up.
    pub cols_log2: int,
    /// Tile rows, as a power of two rounded up.
    pub rows_log2: int,
    /// Column starts and the end.
    pub col_starts: Seq<u32>,
    /// Row starts and the end.
    pub row_starts: Seq<u32>,
    /// Which tile carries the CDF update.
    pub context_id: int,
    /// Bytes of a tile's size.
    pub size_bytes: int,
}

/// How the frame is cut into tiles, at `pos`: the two exponents, the two lists of
/// starts, and where that ends.
#[verifier::opaque]
pub open spec fn cuts_at(data: Seq<u8>, pos: int, g: Grid) -> ((int, int), (Seq<u32>, Seq<u32>), int) {
    if flag_at(data, pos) {
        let (c, p1) = raised_at(data, pos + 1, g.min_cols(), g.max_cols());
        let (r, p2) = raised_at(data, p1, max(g.min_tiles() - c, 0), g.max_rows());
        (
            (c, r),
            (
                even_starts(0, Grid::step(g.cols, c), g.cols),
                even_starts(0, Grid::step(g.rows, r), g.rows),
            ),
            p2,
        )
    } else {
        let (cs, widest, p1) = coded_starts(data, pos + 1, 0, g.max_width, g.cols, 0);
        let (rs, _, p2) = coded_starts(data, p1, 0, g.max_height(widest), g.rows, 0);
        ((cover_log2(1, cs.len() - 1), cover_log2(1, rs.len() - 1)), (cs, rs), p2)
    }
}

/// The tile layout at `pos`, and where it ends.
#[verifier::opaque]
pub open spec fn tile_info_at(data: Seq<u8>, pos: int, g: Grid) -> (TileModel, int) {
    let ((c, r), (cs, rs), p) = cuts_at(data, pos, g);
    if c > 0 || r > 0 {
        (
            TileModel {
                cols_log2: c,
                rows_log2: r,
                col_starts: cs,
                row_starts: rs,
                context_id: bits(data, p, r + c),
                size_bytes: bits(data, p + r + c, 2) + 1,
            },
            p + r + c + 2,
        )
    } else {
        (
            TileModel {
                cols_log2: c,
                rows_log2: r,
                col_starts: cs,
                row_starts: rs,
                context_id: 0,
                size_bytes: 1,
            },
            p,
        )
    }
}

/// A quantizer delta at `pos`, and where it ends.
pub open spec fn delta_q_at(data: Seq<u8>, pos: int) -> (int, int) {
    if flag_at(data, pos) {
        (su_at(data, pos + 1, 6), pos + 8)
    } else {
        (0, pos + 1)
    }
}

/// The quantizer parameters at `pos`, and where they end.
#[verifier::opaque]
pub open spec fn quantization_at(data: Seq<u8>, pos: int, m: SequenceModel) -> (Quantization, int) {
    let (y_dc, p1) = delta_q_at(data, pos + 8);
    let colour = m.color.num_planes > 1;
    let separate = m.color.separate_uv_delta_q;
    let differ = colour && separate && flag_at(data, p1);
    let p2 = p1 + if colour && separate {
        1int
    } else {
        0
    };
    let (u_dc, p3) = delta_q_at(data, p2);
    let (u_ac, p4) = delta_q_at(data, p3);
    let (v_dc, p5) = delta_q_at(data, p4);
    let (v_ac, p6) = delta_q_at(data, p5);
    let p7 = if !colour {
        p1
    } else if differ {
        p6
    } else {
        p4
    };
    let matrices = flag_at(data, p7);
    (
        Quantization {
            base_q_idx: bits(data, pos, 8) as u8,
            delta_q_y_dc: y_dc as i32,
            delta_q_u_dc: (if colour {
                u_dc
            } else {
                0
            }) as i32,
            delta_q_u_ac: (if colour {
                u_ac
            } else {
                0
            }) as i32,
            delta_q_v_dc: (if !colour {
                0
            } else if differ {
                v_dc
            } else {
                u_dc
            }) as i32,
            delta_q_v_ac: (if !colour {
                0
            } else if differ {
                v_ac
            } else {
                u_ac
            }) as i32,
            using_qmatrix: matrices,
            qm_y: (if matrices {
                bits(data, p7 + 1, 4)
            } else {
                0
            }) as u8,
            qm_u: (if matrices {
                bits(data, p7 + 5, 4)
            } else {
                0
            }) as u8,
            qm_v: (if !matrices {
                0
            } else if separate {
                bits(data, p7 + 9, 4)
            } else {
                bits(data, p7 + 5, 4)
            }) as u8,
        },
        p7 + 1 + (if !matrices {
            0int
        } else if separate {
            12
        } else {
            8
        }),
    )
}

/// One segment feature at `pos`: whether it is on, its clipped value, and where it
/// ends.
pub open spec fn feature_at(data: Seq<u8>, pos: int, feature: int) -> (bool, int, int) {
    let n = SEG_FEATURE_BITS@[feature] as int;
    let limit = SEG_FEATURE_MAX@[feature] as int;
    if !flag_at(data, pos) {
        (false, 0, pos + 1)
    } else if SEG_FEATURE_SIGNED@[feature] {
        (true, clamp(su_at(data, pos + 1, n), -limit, limit), pos + n + 2)
    } else {
        (true, clamp(bits(data, pos + 1, n), 0, limit), pos + n + 1)
    }
}

/// The first `k` segment features from `pos` on, segment by segment, and where they
/// end.
pub open spec fn features_at(data: Seq<u8>, pos: int, k: int) -> (Seq<bool>, Seq<int>, int)
    decreases k,
{
    if k <= 0 {
        (Seq::empty(), Seq::empty(), pos)
    } else {
        let (on, values, p) = features_at(data, pos, k - 1);
        let (b, v, end) = feature_at(data, p, (k - 1) % 8);
        (on.push(b), values.push(v), end)
    }
}

/// What the segmentation parameters say, the features of segment `s` standing at
/// `8 * s`.
#[verifier::ext_equal]
pub struct SegmentationModel {
    /// Whether segmentation is on.
    pub enabled: bool,
    /// Which features are on.
    pub on: Seq<bool>,
    /// Their values.
    pub values: Seq<int>,
}

/// The segmentation parameters at `pos`, and where they end.
#[verifier::opaque]
pub open spec fn segmentation_at(data: Seq<u8>, pos: int) -> (SegmentationModel, int) {
    if flag_at(data, pos) {
        let (on, values, end) = features_at(data, pos + 1, 64);
        (SegmentationModel { enabled: true, on, values }, end)
    } else {
        (
            SegmentationModel {
                enabled: false,
                on: Seq::new(64, |i: int| false),
                values: Seq::new(64, |i: int| 0int),
            },
            pos + 1,
        )
    }
}

/// The quantizer index of a segment.
pub open spec fn qindex(seg: SegmentationModel, quant: Quantization, segment: int) -> int {
    if seg.enabled && seg.on[8 * segment] {
        clamp(quant.base_q_idx + seg.values[8 * segment], 0, 255)
    } else {
        quant.base_q_idx as int
    }
}

/// Whether a segment is coded losslessly: a zero quantizer index and no deltas.
pub open spec fn segment_lossless(seg: SegmentationModel, quant: Quantization, segment: int) -> bool {
    &&& qindex(seg, quant, segment) == 0
    &&& quant.delta_q_y_dc == 0
    &&& quant.delta_q_u_ac == 0
    &&& quant.delta_q_u_dc == 0
    &&& quant.delta_q_v_ac == 0
    &&& quant.delta_q_v_dc == 0
}

/// How many segments a frame has.
pub open spec fn segment_count(seg: SegmentationModel) -> int {
    if seg.enabled {
        8
    } else {
        1
    }
}

/// Whether every segment is coded losslessly.
pub open spec fn all_segments_lossless(seg: SegmentationModel, quant: Quantization) -> bool {
    forall|i: int| 0 <= i < segment_count(seg) ==> #[trigger] segment_lossless(seg, quant, i)
}

/// What the per-block delta parameters say.
pub struct DeltaModel {
    /// Whether delta-Q is present.
    pub q: bool,
    /// Delta-Q resolution.
    pub q_res: int,
    /// Whether delta-LF is present.
    pub lf: bool,
    /// Delta-LF resolution.
    pub lf_res: int,
    /// Whether delta-LF is signalled per edge type.
    pub lf_multi: bool,
}

/// The per-block delta parameters at `pos`, and where they end.
#[verifier::opaque]
pub open spec fn delta_at(data: Seq<u8>, pos: int, base_q_idx: int, intrabc: bool) -> (DeltaModel, int) {
    let q = base_q_idx > 0 && flag_at(data, pos);
    let p1 = pos + if base_q_idx > 0 {
        1int
    } else {
        0
    };
    let lf = q && !intrabc && flag_at(data, p1 + 2);
    (
        DeltaModel {
            q,
            q_res: if q {
                bits(data, p1, 2)
            } else {
                0
            },
            lf,
            lf_res: if lf {
                bits(data, p1 + 3, 2)
            } else {
                0
            },
            lf_multi: lf && flag_at(data, p1 + 5),
        },
        if !q {
            p1
        } else if intrabc {
            p1 + 2
        } else if lf {
            p1 + 6
        } else {
            p1 + 3
        },
    )
}

/// The first `k` of a list of optional delta updates from `pos` on, applied to
/// `old`, and where they end.
pub open spec fn updates_at(data: Seq<u8>, pos: int, old: Seq<int>, k: int) -> (Seq<int>, int)
    decreases k,
{
    if k <= 0 {
        (old, pos)
    } else {
        let (s, p) = updates_at(data, pos, old, k - 1);
        if flag_at(data, p) {
            (s.update(k - 1, su_at(data, p + 1, 6)), p + 8)
        } else {
            (s, p + 1)
        }
    }
}

/// What the loop-filter parameters say.
#[verifier::ext_equal]
pub struct LoopFilterModel {
    /// Filter levels.
    pub level: Seq<int>,
    /// Sharpness.
    pub sharpness: int,
    /// Whether deltas are enabled.
    pub delta_enabled: bool,
    /// Reference deltas.
    pub ref_deltas: Seq<int>,
    /// Mode deltas.
    pub mode_deltas: Seq<int>,
}

/// The reference deltas a frame starts from.
pub open spec fn default_ref_deltas() -> Seq<int> {
    seq![1int, 0, 0, 0, -1, 0, -1, -1]
}

/// The loop-filter parameters at `pos`, and where they end. A lossless frame, or
/// one that may copy from itself, codes none.
#[verifier::opaque]
pub open spec fn loop_filter_at(data: Seq<u8>, pos: int, planes: int, off: bool) -> (LoopFilterModel, int) {
    if off {
        (
            LoopFilterModel {
                level: seq![0int, 0, 0, 0],
                sharpness: 0,
                delta_enabled: false,
                ref_deltas: default_ref_deltas(),
                mode_deltas: seq![0int, 0],
            },
            pos,
        )
    } else {
        let l0 = bits(data, pos, 6);
        let l1 = bits(data, pos + 6, 6);
        let chroma = planes > 1 && (l0 != 0 || l1 != 0);
        let p1 = pos + 12 + if chroma {
            12int
        } else {
            0
        };
        let deltas = flag_at(data, p1 + 3);
        let update = deltas && flag_at(data, p1 + 4);
        let (refs, p2) = updates_at(data, p1 + 5, default_ref_deltas(), 8);
        let (modes, p3) = updates_at(data, p2, seq![0int, 0], 2);
        (
            LoopFilterModel {
                level: seq![l0, l1, if chroma {
                    bits(data, pos + 12, 6)
                } else {
                    0
                }, if chroma {
                    bits(data, pos + 18, 6)
                } else {
                    0
                }],
                sharpness: bits(data, p1, 3),
                delta_enabled: deltas,
                ref_deltas: if update {
                    refs
                } else {
                    default_ref_deltas()
                },
                mode_deltas: if update {
                    modes
                } else {
                    seq![0int, 0]
                },
            },
            if update {
                p3
            } else if deltas {
                p1 + 5
            } else {
                p1 + 4
            },
        )
    }
}

/// A secondary CDEF strength: the coded value 3 stands for 4.
pub open spec fn cdef_sec(v: int) -> int {
    if v == 3 {
        4
    } else {
        v
    }
}

/// What the CDEF parameters say.
#[verifier::ext_equal]
pub struct CdefModel {
    /// The damping.
    pub damping: int,
    /// The number of strengths, as a power of two.
    pub bits: int,
    /// Luma primary, luma secondary, chroma primary, chroma secondary strengths.
    pub y_pri: Seq<u32>,
    /// Luma secondary strengths.
    pub y_sec: Seq<u32>,
    /// Chroma primary strengths.
    pub uv_pri: Seq<u32>,
    /// Chroma secondary strengths.
    pub uv_sec: Seq<u32>,
}

/// The CDEF parameters at `pos`, and where they end.
#[verifier::opaque]
pub open spec fn cdef_at(data: Seq<u8>, pos: int, planes: int, off: bool) -> (CdefModel, int) {
    if off {
        (
            CdefModel {
                damping: 3,
                bits: 0,
                y_pri: seq![0u32],
                y_sec: seq![0u32],
                uv_pri: seq![0u32],
                uv_sec: seq![0u32],
            },
            pos,
        )
    } else {
        let n = bits(data, pos + 2, 2);
        let step = if planes > 1 {
            12int
        } else {
            6
        };
        let p = pos + 4;
        (
            CdefModel {
                damping: bits(data, pos, 2) + 3,
                bits: n,
                y_pri: Seq::new(p2(n) as nat, |i: int| bits(data, p + step * i, 4) as u32),
                y_sec: Seq::new(p2(n) as nat, |i: int| cdef_sec(bits(data, p + step * i + 4, 2)) as u32),
                uv_pri: Seq::new(
                    p2(n) as nat,
                    |i: int|
                        if planes > 1 {
                            bits(data, p + step * i + 6, 4) as u32
                        } else {
                            0
                        },
                ),
                uv_sec: Seq::new(
                    p2(n) as nat,
                    |i: int|
                        if planes > 1 {
                            cdef_sec(bits(data, p + step * i + 10, 2)) as u32
                        } else {
                            0
                        },
                ),
            },
            p + step * p2(n),
        )
    }
}

/// What the loop-restoration parameters say.
#[verifier::ext_equal]
pub struct RestorationModel {
    /// Restoration type per plane.
    pub types: Seq<u8>,
    /// Restoration unit size per plane.
    pub sizes: Seq<u32>,
    /// Whether any plane uses restoration.
    pub uses: bool,
}

/// The restoration type of `plane` at `pos`, none past the coded planes.
pub open spec fn lr_type_at(data: Seq<u8>, pos: int, planes: int, plane: int) -> u8 {
    if plane < planes {
        REMAP_LR_TYPE@[bits(data, pos + 2 * plane, 2)]
    } else {
        RESTORE_NONE
    }
}

/// The loop-restoration parameters at `pos`, and where they end.
#[verifier::opaque]
pub open spec fn restoration_at(data: Seq<u8>, pos: int, m: SequenceModel, off: bool) -> (
    RestorationModel,
    int,
) {
    let planes = m.color.num_planes as int;
    if off {
        (
            RestorationModel {
                types: seq![RESTORE_NONE, RESTORE_NONE, RESTORE_NONE],
                sizes: seq![
                    RESTORATION_TILESIZE_MAX,
                    RESTORATION_TILESIZE_MAX,
                    RESTORATION_TILESIZE_MAX,
                ],
                uses: false,
            },
            pos,
        )
    } else {
        let t0 = lr_type_at(data, pos, planes, 0);
        let t1 = lr_type_at(data, pos, planes, 1);
        let t2 = lr_type_at(data, pos, planes, 2);
        let p1 = pos + 2 * planes;
        let chroma = t1 != RESTORE_NONE || t2 != RESTORE_NONE;
        let uses = t0 != RESTORE_NONE || chroma;
        let first = bits(data, p1, 1);
        let shift = if m.sb128 {
            first + 1
        } else if first != 0 {
            first + bits(data, p1 + 1, 1)
        } else {
            0
        };
        let q = p1 + if !m.sb128 && first != 0 {
            2int
        } else {
            1
        };
        let halved = m.color.subsampling_x == 1 && m.color.subsampling_y == 1 && chroma;
        let uv_shift = if halved {
            bits(data, q, 1)
        } else {
            0
        };
        let size = (64 * p2(shift)) as u32;
        let uv_size = (64 * p2(shift) / p2(uv_shift)) as u32;
        (
            RestorationModel {
                types: seq![t0, t1, t2],
                sizes: if uses {
                    seq![size, uv_size, uv_size]
                } else {
                    seq![
                        RESTORATION_TILESIZE_MAX,
                        RESTORATION_TILESIZE_MAX,
                        RESTORATION_TILESIZE_MAX,
                    ]
                },
                uses,
            },
            if !uses {
                p1
            } else if halved {
                q + 1
            } else {
                q
            },
        )
    }
}

/// Where the film-grain parameters that follow the seed, at `pos`, end.
#[verifier::opaque]
pub open spec fn grain_end(data: Seq<u8>, pos: int, m: SequenceModel) -> int {
    let mono = m.color.mono_chrome;
    let y = bits(data, pos, 4);
    let p1 = pos + 4 + 16 * y;
    let from_luma = !mono && flag_at(data, p1);
    let p2 = p1 + if mono {
        0int
    } else {
        1
    };
    let none = mono || from_luma || (m.color.subsampling_x == 1 && m.color.subsampling_y == 1 && y == 0);
    let cb = if none {
        0
    } else {
        bits(data, p2, 4)
    };
    let p3 = p2 + 4 + 16 * cb;
    let cr = if none {
        0
    } else {
        bits(data, p3, 4)
    };
    let p4 = if none {
        p2
    } else {
        p3 + 4 + 16 * cr
    };
    let lag = bits(data, p4 + 2, 2);
    let luma = 2 * lag * (lag + 1);
    let chroma = if y > 0 {
        luma + 1
    } else {
        luma
    };
    p4 + 4 + (if y > 0 {
        8 * luma
    } else {
        0
    }) + (if from_luma || cb > 0 {
        8 * chroma
    } else {
        0
    }) + (if from_luma || cr > 0 {
        8 * chroma
    } else {
        0
    }) + 4 + (if cb > 0 {
        25int
    } else {
        0
    }) + (if cr > 0 {
        25int
    } else {
        0
    }) + 2
}

/// The film-grain parameters at `pos`, and where they end.
#[verifier::opaque]
pub open spec fn film_grain_at(data: Seq<u8>, pos: int, m: SequenceModel, s: StartModel) -> (FilmGrain, int) {
    let none = FilmGrain { apply_grain: false, grain_seed: 0 };
    if !m.film_grain || (!s.show && !s.showable) {
        (none, pos)
    } else if !flag_at(data, pos) {
        (none, pos + 1)
    } else {
        (
            FilmGrain { apply_grain: true, grain_seed: bits(data, pos + 1, 16) as u16 },
            grain_end(data, pos + 17, m),
        )
    }
}

/// What a frame header says.
pub struct FrameModel {
    /// The frame's type and how it is shown.
    pub start: StartModel,
    /// Whether CDF updates are disabled.
    pub freeze: bool,
    /// Whether screen-content tools are allowed.
    pub screen_content: bool,
    /// The frame size.
    pub size: FrameSizeModel,
    /// The display size.
    pub render: (int, int),
    /// Whether intra block copy is allowed.
    pub intrabc: bool,
    /// Whether the frame-end CDF update is disabled.
    pub no_end_update: bool,
    /// The tile layout.
    pub tiles: TileModel,
    /// Quantizer parameters.
    pub quant: Quantization,
    /// Segmentation parameters.
    pub seg: SegmentationModel,
    /// Per-block deltas.
    pub delta: DeltaModel,
    /// Loop-filter parameters.
    pub loop_filter: LoopFilterModel,
    /// CDEF parameters.
    pub cdef: CdefModel,
    /// Loop-restoration parameters.
    pub restoration: RestorationModel,
    /// The transform mode.
    pub tx_mode: TxMode,
    /// Whether the reduced transform set is used.
    pub reduced_tx_set: bool,
    /// Film-grain parameters.
    pub film_grain: FilmGrain,
}

impl FrameModel {
    /// Whether every segment is coded losslessly.
    pub open spec fn coded_lossless(self) -> bool {
        all_segments_lossless(self.seg, self.quant)
    }

    /// Whether the frame is lossless and unscaled.
    pub open spec fn all_lossless(self) -> bool {
        self.coded_lossless() && self.size.width == self.size.upscaled
    }
}

/// The part of a frame header from the frame size to the per-block deltas.
pub struct LayoutModel {
    /// The frame size.
    pub size: FrameSizeModel,
    /// The display size.
    pub render: (int, int),
    /// Whether intra block copy is allowed.
    pub intrabc: bool,
    /// Whether the frame-end CDF update is disabled.
    pub no_end_update: bool,
    /// The tile layout.
    pub tiles: TileModel,
    /// Quantizer parameters.
    pub quant: Quantization,
    /// Segmentation parameters.
    pub seg: SegmentationModel,
    /// Per-block deltas.
    pub delta: DeltaModel,
}

/// The part from the frame size to the per-block deltas, at `pos`, and where it
/// ends.
#[verifier::opaque]
pub open spec fn layout_at(data: Seq<u8>, pos: int, m: SequenceModel, c: ControlModel) -> (LayoutModel, int) {
    let (size, p1) = frame_size_at(data, pos, m, c.size_override);
    let (render, p2) = render_at(data, p1, size);
    let copyable = c.screen_content && size.upscaled == size.width;
    let intrabc = copyable && flag_at(data, p2);
    let p3 = p2 + if copyable {
        1int
    } else {
        0
    };
    let implied = m.reduced || c.freeze;
    let p4 = p3 + if implied {
        0int
    } else {
        1
    };
    let (tiles, p5) = tile_info_at(data, p4, grid_of(m.sb128, size.mi_cols(), size.mi_rows()));
    let (quant, p6) = quantization_at(data, p5, m);
    let (seg, p7) = segmentation_at(data, p6);
    let (delta, p8) = delta_at(data, p7, quant.base_q_idx as int, intrabc);
    (
        LayoutModel {
            size,
            render,
            intrabc,
            no_end_update: implied || flag_at(data, p3),
            tiles,
            quant,
            seg,
            delta,
        },
        p8,
    )
}

/// The part of a frame header from the loop filter on.
pub struct FilterModel {
    /// Loop-filter parameters.
    pub loop_filter: LoopFilterModel,
    /// CDEF parameters.
    pub cdef: CdefModel,
    /// Loop-restoration parameters.
    pub restoration: RestorationModel,
    /// The transform mode.
    pub tx_mode: TxMode,
    /// Whether the reduced transform set is used.
    pub reduced_tx_set: bool,
    /// Film-grain parameters.
    pub film_grain: FilmGrain,
}

/// The part from the loop filter on, at `pos`, and where it ends.
#[verifier::opaque]
pub open spec fn filters_at(
    data: Seq<u8>,
    pos: int,
    m: SequenceModel,
    s: StartModel,
    lossless: bool,
    unscaled: bool,
    intrabc: bool,
) -> (FilterModel, int) {
    let planes = m.color.num_planes as int;
    let (loop_filter, p1) = loop_filter_at(data, pos, planes, lossless || intrabc);
    let (cdef, p2) = cdef_at(data, p1, planes, lossless || intrabc || !m.cdef);
    let (restoration, p3) = restoration_at(
        data,
        p2,
        m,
        (lossless && unscaled) || intrabc || !m.restoration,
    );
    let p4 = p3 + if lossless {
        0int
    } else {
        1
    };
    let (film_grain, p5) = film_grain_at(data, p4 + 1, m, s);
    (
        FilterModel {
            loop_filter,
            cdef,
            restoration,
            tx_mode: if lossless {
                TxMode::Only4x4
            } else if flag_at(data, p3) {
                TxMode::Select
            } else {
                TxMode::Largest
            },
            reduced_tx_set: flag_at(data, p4),
            film_grain,
        },
        p5,
    )
}

/// The frame header at `pos`, and where it ends.
#[verifier::opaque]
pub open spec fn frame_at(data: Seq<u8>, pos: int, m: SequenceModel, temporal_id: int, spatial_id: int) -> (
    FrameModel,
    int,
) {
    let (start, p1) = start_at(data, pos, m);
    let (control, p2) = control_at(data, p1, m, start, temporal_id, spatial_id);
    let (l, p3) = layout_at(data, p2, m, control);
    let lossless = all_segments_lossless(l.seg, l.quant);
    let (f, p4) = filters_at(data, p3, m, start, lossless, l.size.width == l.size.upscaled, l.intrabc);
    (
        FrameModel {
            start,
            freeze: control.freeze,
            screen_content: control.screen_content,
            size: l.size,
            render: l.render,
            intrabc: l.intrabc,
            no_end_update: l.no_end_update,
            tiles: l.tiles,
            quant: l.quant,
            seg: l.seg,
            delta: l.delta,
            loop_filter: f.loop_filter,
            cdef: f.cdef,
            restoration: f.restoration,
            tx_mode: f.tx_mode,
            reduced_tx_set: f.reduced_tx_set,
            film_grain: f.film_grain,
        },
        p4,
    )
}

/// How parsing the frame header at `pos` fails, if it does: a header that only
/// shows an earlier frame and an inter frame are unsupported, as soon as the data
/// says so, and a header that runs past the data is malformed.
pub open spec fn frame_failure(data: Seq<u8>, pos: int, m: SequenceModel, temporal_id: int, spatial_id: int) -> Option<
    Fault,
> {
    let total = 8 * data.len();
    let (start, p1) = start_at(data, pos, m);
    if start.existing {
        Some(
            unsupported(
                "avif: show_existing_frame is an animation/reference feature outside the still-picture subset"@,
            ),
        )
    } else if p1 > total {
        Some(malformed(ended()))
    } else if start.kind != KEY_FRAME && start.kind != INTRA_ONLY_FRAME {
        Some(unsupported("avif: inter frames are outside the still-picture subset"@))
    } else if frame_at(data, pos, m, temporal_id, spatial_id).1 > total {
        Some(malformed(ended()))
    } else {
        None
    }
}

/// Where the reader stands after a frame header that failed: behind what said that it
/// is unsupported, or at the end of the data.
pub open spec fn frame_stop(data: Seq<u8>, pos: int, m: SequenceModel) -> int {
    let (start, p1) = start_at(data, pos, m);
    if start.existing {
        pos + 1
    } else if p1 <= 8 * data.len() && start.kind != KEY_FRAME && start.kind != INTRA_ONLY_FRAME {
        p1
    } else {
        8 * data.len() as int
    }
}

impl TileInfo {
    /// What this layout says.
    pub open spec fn model(&self) -> TileModel {
        TileModel {
            cols_log2: self.cols_log2 as int,
            rows_log2: self.rows_log2 as int,
            col_starts: self.col_starts_sb@,
            row_starts: self.row_starts_sb@,
            context_id: self.context_update_tile_id as int,
            size_bytes: self.tile_size_bytes as int,
        }
    }

    /// The counts are those of the starts.
    pub open spec fn wf(&self) -> bool {
        &&& self.cols == self.col_starts_sb@.len() - 1
        &&& self.rows == self.row_starts_sb@.len() - 1
        &&& self.cols <= 1024
        &&& self.rows <= 1024
    }

    /// Total number of tiles.
    pub fn count(&self) -> (r: u32)
        requires
            self.cols * self.rows <= u32::MAX,
        ensures
            r == self.cols * self.rows,
    {
        self.cols * self.rows
    }
}

impl Segmentation {
    /// What these parameters say.
    pub open spec fn model(&self) -> SegmentationModel {
        SegmentationModel {
            enabled: self.enabled,
            on: Seq::new(64, |k: int| self.feature_enabled@[k / 8]@[k % 8]),
            values: Seq::new(64, |k: int| self.feature_data@[k / 8]@[k % 8] as int),
        }
    }

    /// Parameters with segmentation off.
    fn disabled() -> (r: Self)
        ensures
            !r.enabled,
            forall|i: int, j: int| 0 <= i < 8 && 0 <= j < 8 ==> !#[trigger] r.feature_enabled@[i]@[j],
            forall|i: int, j: int| 0 <= i < 8 && 0 <= j < 8 ==> #[trigger] r.feature_data@[i]@[j] == 0,
    {
        Segmentation { enabled: false, feature_enabled: [[false; 8]; 8], feature_data: [[0; 8]; 8] }
    }

    /// Whether `feature` is on for `segment`.
    pub fn feature_active(&self, segment: usize, feature: usize) -> (r: bool)
        ensures
            r == (self.enabled && segment < 8 && feature < 8
                && self.feature_enabled@[segment as int]@[feature as int]),
    {
        self.enabled && segment < 8 && feature < 8 && self.feature_enabled[segment][feature]
    }
}

impl Quantization {
    /// The deltas are those that seven bits code.
    pub open spec fn wf(&self) -> bool {
        &&& -64 <= self.delta_q_y_dc < 64
        &&& -64 <= self.delta_q_u_dc < 64
        &&& -64 <= self.delta_q_u_ac < 64
        &&& -64 <= self.delta_q_v_dc < 64
        &&& -64 <= self.delta_q_v_ac < 64
    }
}

impl LoopFilter {
    /// The sharpness and the reference deltas are those that their bits code.
    pub open spec fn wf(&self) -> bool {
        &&& self.sharpness <= 7
        &&& forall|i: int| 0 <= i < 8 ==> -64 <= #[trigger] self.ref_deltas@[i] < 64
    }

    /// What these parameters say.
    pub open spec fn model(&self) -> LoopFilterModel {
        LoopFilterModel {
            level: self.level@.map_values(|x: u8| x as int),
            sharpness: self.sharpness as int,
            delta_enabled: self.delta_enabled,
            ref_deltas: self.ref_deltas@.map_values(|x: i32| x as int),
            mode_deltas: self.mode_deltas@.map_values(|x: i32| x as int),
        }
    }
}

impl Cdef {
    /// What these parameters say.
    pub open spec fn model(&self) -> CdefModel {
        CdefModel {
            damping: self.damping as int,
            bits: self.bits as int,
            y_pri: self.y_pri_strength@,
            y_sec: self.y_sec_strength@,
            uv_pri: self.uv_pri_strength@,
            uv_sec: self.uv_sec_strength@,
        }
    }
}

impl LoopRestoration {
    /// What these parameters say.
    pub open spec fn model(&self) -> RestorationModel {
        RestorationModel {
            types: self.frame_restoration_type@,
            sizes: self.unit_size@,
            uses: self.uses_lr,
        }
    }
}

impl Default for FilmGrain {
    /// No grain.
    fn default() -> (r: Self)
        ensures
            !r.apply_grain,
            r.grain_seed == 0,
    {
        FilmGrain { apply_grain: false, grain_seed: 0 }
    }
}

impl FrameHeader {
    /// What this header says.
    pub open spec fn model(&self) -> FrameModel {
        FrameModel {
            start: StartModel {
                existing: false,
                kind: self.frame_type as int,
                show: self.show_frame,
                showable: self.showable_frame,
                resilient: self.error_resilient_mode,
            },
            freeze: self.disable_cdf_update,
            screen_content: self.allow_screen_content_tools,
            size: FrameSizeModel {
                width: self.frame_width as int,
                height: self.frame_height as int,
                upscaled: self.upscaled_width as int,
                denom: self.superres_denom as int,
            },
            render: (self.render_width as int, self.render_height as int),
            intrabc: self.allow_intrabc,
            no_end_update: self.disable_frame_end_update_cdf,
            tiles: self.tile_info.model(),
            quant: self.quantization,
            seg: self.segmentation.model(),
            delta: DeltaModel {
                q: self.delta_q_present,
                q_res: self.delta_q_res as int,
                lf: self.delta_lf_present,
                lf_res: self.delta_lf_res as int,
                lf_multi: self.delta_lf_multi,
            },
            loop_filter: self.loop_filter.model(),
            cdef: self.cdef.model(),
            restoration: self.loop_restoration.model(),
            tx_mode: self.tx_mode,
            reduced_tx_set: self.reduced_tx_set,
            film_grain: self.film_grain,
        }
    }

    /// The derived fields follow from the others: the size in 4x4 units, and which
    /// segments, and whether all of them, are lossless.
    pub open spec fn wf(&self) -> bool {
        let m = self.model();
        &&& self.mi_cols == m.size.mi_cols()
        &&& self.mi_rows == m.size.mi_rows()
        &&& self.coded_lossless == m.coded_lossless()
        &&& self.all_lossless == m.all_lossless()
        &&& forall|i: int|
            0 <= i < 8 ==> (#[trigger] self.lossless@[i] <==> i < segment_count(m.seg) && segment_lossless(
                m.seg,
                m.quant,
                i,
            ))
        &&& self.tile_info.wf()
        &&& self.quantization.wf()
        &&& self.loop_filter.wf()
        &&& 1 <= self.upscaled_width <= 65536
        &&& 1 <= self.frame_width <= 65536
        &&& 1 <= self.frame_height <= 65536
    }
}

/// The frame's type and how it is shown, as parsed.
struct Start {
    existing: bool,
    kind: u8,
    show: bool,
    showable: bool,
    resilient: bool,
}

impl Start {
    spec fn model(&self) -> StartModel {
        StartModel {
            existing: self.existing,
            kind: self.kind as int,
            show: self.show,
            showable: self.showable,
            resilient: self.resilient,
        }
    }
}

/// The frame's type and how it is shown.
fn parse_start(r: &mut Cursor<'_>, seq: &SequenceHeader) -> (res: Start)
    requires
        old(r).wf(),
        seq.wf(),
    ensures
        final(r).moved(old(r), start_at(old(r).bytes(), old(r).at(), seq.model()).1),
        res.model() == start_at(old(r).bytes(), old(r).at(), seq.model()).0,
        res.kind <= 3,
{
    proof {
        reveal(start_at);
        lemma_p2_values();
    }
    if seq.reduced_still_picture_header {
        return Start { existing: false, kind: KEY_FRAME, show: true, showable: false, resilient: false };
    }
    let existing = r.flag();
    let kind = r.f(2) as u8;
    let show = r.flag();
    if show && seq.decoder_model_info_present && !seq.equal_picture_interval {
        let _frame_presentation_time = r.f(seq.frame_presentation_time_length);
    }
    let showable = if show {
        kind != KEY_FRAME
    } else {
        r.flag()
    };
    let resilient = if kind == SWITCH_FRAME || (kind == KEY_FRAME && show) {
        true
    } else {
        r.flag()
    };
    Start { existing, kind, show, showable, resilient }
}

/// Skip the buffer removal times.
fn skip_removal_times(r: &mut Cursor<'_>, seq: &SequenceHeader, temporal_id: u8, spatial_id: u8)
    requires
        old(r).wf(),
        seq.wf(),
        temporal_id < 16,
        spatial_id < 8,
    ensures
        final(r).moved(
            old(r),
            removal_end(
                old(r).at(),
                seq.operating_points@,
                seq.operating_points@.len() as int,
                temporal_id as int,
                spatial_id as int,
                seq.buffer_removal_time_length as int,
            ),
        ),
{
    let mut i: usize = 0;
    while i < seq.operating_points.len()
        invariant
            i <= seq.operating_points@.len(),
            seq.wf(),
            temporal_id < 16,
            spatial_id < 8,
            r.moved(
                old(r),
                removal_end(
                    old(r).at(),
                    seq.operating_points@,
                    i as int,
                    temporal_id as int,
                    spatial_id as int,
                    seq.buffer_removal_time_length as int,
                ),
            ),
        decreases seq.operating_points@.len() - i,
    {
        let idc = seq.operating_points[i].idc as u32;
        let in_temporal = shr_u32(idc, temporal_id as u32) % 2;
        let in_spatial = shr_u32(idc, spatial_id as u32 + 8) % 2;
        if idc == 0 || (in_temporal != 0 && in_spatial != 0) {
            let _buffer_removal_time = r.f(seq.buffer_removal_time_length);
        }
        i = i + 1;
    }
}

/// The fields between the frame type and the frame size, as parsed.
struct Control {
    freeze: bool,
    screen_content: bool,
    size_override: bool,
}

impl Control {
    spec fn model(&self) -> ControlModel {
        ControlModel {
            freeze: self.freeze,
            screen_content: self.screen_content,
            size_override: self.size_override,
        }
    }
}

/// The fields between the frame type and the frame size.
fn parse_control(
    r: &mut Cursor<'_>,
    seq: &SequenceHeader,
    start: &Start,
    temporal_id: u8,
    spatial_id: u8,
) -> (res: Control)
    requires
        old(r).wf(),
        seq.wf(),
        temporal_id < 16,
        spatial_id < 8,
        start.kind == KEY_FRAME || start.kind == INTRA_ONLY_FRAME,
    ensures
        final(r).moved(
            old(r),
            control_at(
                old(r).bytes(),
                old(r).at(),
                seq.model(),
                start.model(),
                temporal_id as int,
                spatial_id as int,
            ).1,
        ),
        res.model() == control_at(
            old(r).bytes(),
            old(r).at(),
            seq.model(),
            start.model(),
            temporal_id as int,
            spatial_id as int,
        ).0,
{
    proof {
        reveal(control_at);
    }
    let freeze = r.flag();
    let screen_content = if seq.seq_force_screen_content_tools == SELECT {
        r.flag()
    } else {
        seq.seq_force_screen_content_tools != 0
    };
    if screen_content && seq.seq_force_integer_mv == SELECT {
        let _force_integer_mv = r.f(1);
    }
    if seq.frame_id_numbers_present {
        let _current_frame_id = r.f(seq.additional_frame_id_length + seq.delta_frame_id_length);
    }
    let size_override = if seq.reduced_still_picture_header {
        false
    } else {
        r.flag()
    };
    let _order_hint = r.f(seq.order_hint_bits);
    if seq.decoder_model_info_present {
        let buffer_removal_time_present = r.flag();
        if buffer_removal_time_present {
            skip_removal_times(r, seq, temporal_id, spatial_id);
        }
    }
    if !(start.kind == KEY_FRAME && start.show) {
        let _refresh_frame_flags = r.f(8);
    }
    Control { freeze, screen_content, size_override }
}

/// The frame size, as parsed.
struct FrameSize {
    width: u32,
    height: u32,
    upscaled: u32,
    denom: u32,
    mi_cols: u32,
    mi_rows: u32,
}

impl FrameSize {
    spec fn model(&self) -> FrameSizeModel {
        FrameSizeModel {
            width: self.width as int,
            height: self.height as int,
            upscaled: self.upscaled as int,
            denom: self.denom as int,
        }
    }

    spec fn wf(&self) -> bool {
        &&& 1 <= self.width <= 65536
        &&& 1 <= self.height <= 65536
        &&& 1 <= self.upscaled <= 65536
        &&& self.mi_cols == self.model().mi_cols()
        &&& self.mi_rows == self.model().mi_rows()
    }
}

/// The frame size.
fn parse_frame_size(r: &mut Cursor<'_>, seq: &SequenceHeader, size_override: bool) -> (res: FrameSize)
    requires
        old(r).wf(),
        seq.wf(),
    ensures
        final(r).moved(old(r), frame_size_at(old(r).bytes(), old(r).at(), seq.model(), size_override).1),
        res.model() == frame_size_at(old(r).bytes(), old(r).at(), seq.model(), size_override).0,
        res.wf(),
{
    proof {
        reveal(frame_size_at);
        lemma_p2_values();
        lemma_p2_mono(seq.frame_width_bits as int, 16);
        lemma_p2_mono(seq.frame_height_bits as int, 16);
    }
    let mut upscaled = seq.max_frame_width;
    let mut height = seq.max_frame_height;
    if size_override {
        upscaled = r.f(seq.frame_width_bits) + 1;
        height = r.f(seq.frame_height_bits) + 1;
    }
    let use_superres = if seq.enable_superres {
        r.flag()
    } else {
        false
    };
    let denom = if use_superres {
        r.f(3) + SUPERRES_DENOM_MIN
    } else {
        SUPERRES_NUM
    };
    let numerator = upscaled * SUPERRES_NUM + (denom / 2);
    proof {
        lemma_scaled_width(upscaled as int, denom as int);
    }
    let width = numerator / denom;
    let mi_cols = 2 * ((width + 7) / 8);
    let mi_rows = 2 * ((height + 7) / 8);
    FrameSize { width, height, upscaled, denom, mi_cols, mi_rows }
}

/// Scaling by 8 over 8 to 16 leaves at least one sample and never adds any.
proof fn lemma_scaled_width(w: int, d: int)
    requires
        w >= 1,
        8 <= d <= 16,
    ensures
        1 <= (w * 8 + d / 2) / d <= w,
{
    let n = w * 8 + d / 2;
    assert(n / d >= 1) by (nonlinear_arith)
        requires
            n >= d,
            d >= 1,
    ;
    assert(n < d * (w + 1)) by (nonlinear_arith)
        requires
            n == w * 8 + d / 2,
            8 <= d,
            w >= 1,
    ;
    vstd::arithmetic::div_mod::lemma_fundamental_div_mod(n, d);
    assert(n / d <= w) by (nonlinear_arith)
        requires
            n == d * (n / d) + n % d,
            0 <= n % d,
            n < d * (w + 1),
            d >= 1,
    ;
}

/// The display size.
fn parse_render_size(r: &mut Cursor<'_>, size: &FrameSize) -> (res: (u32, u32))
    requires
        old(r).wf(),
    ensures
        final(r).moved(old(r), render_at(old(r).bytes(), old(r).at(), size.model()).1),
        (res.0 as int, res.1 as int) == render_at(old(r).bytes(), old(r).at(), size.model()).0,
{
    proof {
        lemma_p2_values();
    }
    if r.flag() {
        let w = r.f(16) + 1;
        let h = r.f(16) + 1;
        (w, h)
    } else {
        (size.upscaled, size.height)
    }
}

/// `tile_log2` is the smallest exponent that covers.
pub proof fn lemma_cover_log2(blk: int, target: int)
    requires
        blk > 0,
    ensures
        cover_log2(blk, target) >= 0,
        blk * p2(cover_log2(blk, target)) >= target,
        cover_log2(blk, target) > 0 ==> blk * p2(cover_log2(blk, target) - 1) < target,
    decreases gap(target, blk),
{
    if blk < target {
        lemma_cover_log2(2 * blk, target);
        let k = cover_log2(2 * blk, target);
        assert((2 * blk) * p2(k) == blk * (2 * p2(k))) by (nonlinear_arith);
        if k > 0 {
            assert((2 * blk) * p2(k - 1) == blk * (2 * p2(k - 1))) by (nonlinear_arith);
        } else {
            assert(blk * 1 == blk);
        }
    } else {
        assert(blk * 1 == blk);
    }
}

/// Covering needs no more doublings than reach the target.
proof fn lemma_cover_bound(blk: int, target: int, k: int)
    requires
        blk > 0,
        k >= 0,
        p2(k) >= target,
    ensures
        0 <= cover_log2(blk, target) <= k,
{
    lemma_cover_log2(blk, target);
    let c = cover_log2(blk, target);
    if c > k {
        lemma_p2_mono(k, c - 1);
        assert(blk * p2(c - 1) >= p2(c - 1)) by (nonlinear_arith)
            requires
                blk >= 1,
                p2(c - 1) >= 0,
        ;
    }
}

/// The smallest `k` with `blk_size * 2^k >= target`.
pub fn tile_log2(blk_size: u32, target: u32) -> (r: u32)
    requires
        blk_size > 0,
        target <= 0x8000_0000,
    ensures
        r == cover_log2(blk_size as int, target as int),
        r <= 31,
{
    proof {
        lemma_p2_values();
        lemma_cover_bound(blk_size as int, target as int, 31);
    }
    let mut k: u32 = 0;
    let mut size = blk_size;
    while size < target
        invariant
            size > 0,
            target <= 0x8000_0000,
            cover_log2(blk_size as int, target as int) == k + cover_log2(size as int, target as int),
            cover_log2(blk_size as int, target as int) <= 31,
        decreases gap(target as int, size as int),
    {
        proof {
            lemma_cover_log2(2 * size, target as int);
        }
        size = 2 * size;
        k = k + 1;
    }
    k
}

/// Read flags that raise `k` up to `limit`.
fn parse_raise(r: &mut Cursor<'_>, k: u32, limit: u32) -> (res: u32)
    requires
        old(r).wf(),
    ensures
        final(r).moved(old(r), raised_at(old(r).bytes(), old(r).at(), k as int, limit as int).1),
        res == raised_at(old(r).bytes(), old(r).at(), k as int, limit as int).0,
        k <= res,
        res <= k || res <= limit,
{
    let mut c = k;
    let mut more = true;
    while more && c < limit
        invariant
            r.wf(),
            r.bytes() == old(r).bytes(),
            k <= c,
            c <= k || c <= limit,
            more ==> raised_at(old(r).bytes(), old(r).at(), k as int, limit as int) == raised_at(
                old(r).bytes(),
                r.at(),
                c as int,
                limit as int,
            ),
            !more ==> raised_at(old(r).bytes(), old(r).at(), k as int, limit as int) == (c as int, r.at()),
        decreases limit - c, (if more { 1int } else { 0 }),
    {
        if r.flag() {
            c = c + 1;
        } else {
            more = false;
        }
    }
    c
}

/// The starts of evenly spaced tiles.
fn build_even_starts(n: u32, step: u32) -> (res: Vec<u32>)
    requires
        1 <= step,
        n <= 1024,
        step <= 2048,
    ensures
        res@ == even_starts(0, step as int, n as int),
        1 <= res@.len() <= n + 1,
{
    let mut starts: Vec<u32> = Vec::new();
    let mut start: u32 = 0;
    while start < n
        invariant
            1 <= step <= 2048,
            n <= 1024,
            start <= n + step,
            starts@ + even_starts(start as int, step as int, n as int) == even_starts(
                0,
                step as int,
                n as int,
            ),
            starts@.len() <= start,
            starts@.len() <= n,
        decreases gap(n as int, start as int),
    {
        let ghost before = starts@;
        let ghost rest = even_starts(start + step, step as int, n as int);
        starts.push(start);
        assert(before + (seq![start] + rest) =~= before.push(start) + rest);
        start = start + step;
    }
    let ghost before = starts@;
    starts.push(n);
    assert(before + seq![n] =~= before.push(n));
    starts
}

/// Sizes are at least one, so the starts of coded tiles are few.
fn parse_coded_starts(r: &mut Cursor<'_>, limit: u32, n: u32) -> (res: (Vec<u32>, u32))
    requires
        old(r).wf(),
        1 <= limit < 0x8000_0000,
        1 <= n <= 1024,
    ensures
        final(r).moved(old(r), coded_starts(old(r).bytes(), old(r).at(), 0, limit as int, n as int, 0).2),
        res.0@ == coded_starts(old(r).bytes(), old(r).at(), 0, limit as int, n as int, 0).0,
        res.1 == coded_starts(old(r).bytes(), old(r).at(), 0, limit as int, n as int, 0).1,
        2 <= res.0@.len() <= n + 1,
        1 <= res.1,
{
    let ghost data = r.bytes();
    let ghost all = coded_starts(data, r.at(), 0, limit as int, n as int, 0);
    let mut starts: Vec<u32> = Vec::new();
    let mut start: u32 = 0;
    let mut widest: u32 = 0;
    assert(Seq::<u32>::empty() + all.0 =~= all.0);
    while start < n
        invariant
            r.wf(),
            r.bytes() == data,
            data == old(r).bytes(),
            1 <= limit < 0x8000_0000,
            1 <= n <= 1024,
            start <= n,
            widest <= n,
            starts@.len() <= start,
            start > 0 ==> widest >= 1 && starts@.len() >= 1,
            all.0 == starts@ + coded_starts(data, r.at(), start as int, limit as int, n as int, widest as int).0,
            all.1 == coded_starts(data, r.at(), start as int, limit as int, n as int, widest as int).1,
            all.2 == coded_starts(data, r.at(), start as int, limit as int, n as int, widest as int).2,
        decreases n - start,
    {
        let room = if n - start < limit {
            n - start
        } else {
            limit
        };
        let ghost before = starts@;
        let ghost here = r.at();
        let size = r.ns(room) + 1;
        let ghost rest = coded_starts(
            data,
            r.at(),
            start + size,
            limit as int,
            n as int,
            max(widest as int, size as int),
        );
        starts.push(start);
        assert(before + (seq![start] + rest.0) =~= before.push(start) + rest.0);
        if size > widest {
            widest = size;
        }
        start = start + size;
    }
    let ghost before = starts@;
    starts.push(n);
    assert(before + seq![n] =~= before.push(n));
    (starts, widest)
}

/// How the frame is cut into tiles, as parsed.
struct Cuts {
    cols_log2: u32,
    rows_log2: u32,
    col_starts: Vec<u32>,
    row_starts: Vec<u32>,
}

/// The superblock grid is within what a frame of 65536 samples has.
spec fn grid_ok(g: Grid) -> bool {
    &&& 1 <= g.cols <= 1024
    &&& 1 <= g.rows <= 1024
    &&& (g.max_width == 32 || g.max_width == 64)
    &&& (g.max_area == 576 || g.max_area == 2304)
}

/// The step of evenly spaced tiles is a number of superblocks.
proof fn lemma_step(n: int, k: int)
    requires
        1 <= n <= 1024,
        0 <= k <= 31,
    ensures
        1 <= Grid::step(n, k) <= n,
        p2(k) <= 0x8000_0000,
{
    lemma_p2_pos(k);
    lemma_p2_mono(k, 31);
    lemma_p2_values();
    let d = p2(k);
    let x = n + d - 1;
    vstd::arithmetic::div_mod::lemma_fundamental_div_mod(x, d);
    assert(1 <= x / d <= n) by (nonlinear_arith)
        requires
            x == n + d - 1,
            x == d * (x / d) + x % d,
            0 <= x % d < d,
            d >= 1,
            n >= 1,
    ;
}

/// How the frame is cut into tiles.
fn parse_cuts(r: &mut Cursor<'_>, sb_cols: u32, sb_rows: u32, max_width: u32, max_area: u32, Ghost(g): Ghost<Grid>) -> (res: Cuts)
    requires
        old(r).wf(),
        grid_ok(g),
        g == (Grid {
            cols: sb_cols as int,
            rows: sb_rows as int,
            max_width: max_width as int,
            max_area: max_area as int,
        }),
    ensures
        final(r).moved(old(r), cuts_at(old(r).bytes(), old(r).at(), g).2),
        (res.cols_log2 as int, res.rows_log2 as int) == cuts_at(old(r).bytes(), old(r).at(), g).0,
        res.col_starts@ == cuts_at(old(r).bytes(), old(r).at(), g).1.0,
        res.row_starts@ == cuts_at(old(r).bytes(), old(r).at(), g).1.1,
        res.cols_log2 <= 10,
        res.rows_log2 <= 20,
        1 <= res.col_starts@.len() <= 1025,
        1 <= res.row_starts@.len() <= 1025,
{
    proof {
        reveal(cuts_at);
        lemma_p2_values();
        assert(sb_rows * sb_cols <= 1024 * 1024) by (nonlinear_arith)
            requires
                sb_rows <= 1024,
                sb_cols <= 1024,
        ;
        assert(sb_rows * sb_cols >= 1) by (nonlinear_arith)
            requires
                sb_rows >= 1,
                sb_cols >= 1,
        ;
        lemma_cover_bound(max_width as int, sb_cols as int, 10);
        lemma_cover_bound(max_area as int, sb_rows * sb_cols, 20);
        lemma_cover_bound(1, min(g.cols, 64), 6);
        lemma_cover_bound(1, min(g.rows, 64), 6);
    }
    let area = sb_rows * sb_cols;
    let min_cols = tile_log2(max_width, sb_cols);
    let max_cols = tile_log2(1, if sb_cols < MAX_TILE_COUNT { sb_cols } else { MAX_TILE_COUNT });
    let max_rows = tile_log2(1, if sb_rows < MAX_TILE_COUNT { sb_rows } else { MAX_TILE_COUNT });
    let area_log2 = tile_log2(max_area, area);
    let min_tiles = if area_log2 > min_cols {
        area_log2
    } else {
        min_cols
    };
    assert(min_tiles == g.min_tiles());
    if r.flag() {
        let cols_log2 = parse_raise(r, min_cols, max_cols);
        let min_rows = if min_tiles > cols_log2 {
            min_tiles - cols_log2
        } else {
            0
        };
        let rows_log2 = parse_raise(r, min_rows, max_rows);
        proof {
            lemma_step(sb_cols as int, cols_log2 as int);
            lemma_step(sb_rows as int, rows_log2 as int);
            lemma_p2_mono(cols_log2 as int, 20);
            lemma_p2_mono(rows_log2 as int, 20);
            lemma_p2_pos(cols_log2 as int);
            lemma_p2_pos(rows_log2 as int);
        }
        let col_starts = build_even_starts(sb_cols, shr_u32(sb_cols + pow2_u32(cols_log2) - 1, cols_log2));
        let row_starts = build_even_starts(sb_rows, shr_u32(sb_rows + pow2_u32(rows_log2) - 1, rows_log2));
        Cuts { cols_log2, rows_log2, col_starts, row_starts }
    } else {
        let (col_starts, widest) = parse_coded_starts(r, max_width, sb_cols);
        let max_tile_area = if min_tiles > 0 {
            shr_u32(area, min_tiles + 1)
        } else {
            area
        };
        let quotient = max_tile_area / widest;
        let max_height = if quotient > 1 {
            quotient
        } else {
            1
        };
        assert(max_height == g.max_height(widest as int));
        proof {
            lemma_p2_pos(min_tiles + 1);
            crate::math::lemma_quotient_bound(area as int, p2(min_tiles + 1));
            crate::math::lemma_quotient_bound(max_tile_area as int, widest as int);
        }
        let (row_starts, _) = parse_coded_starts(r, max_height, sb_rows);
        proof {
            lemma_cover_bound(1, col_starts@.len() - 1, 10);
            lemma_cover_bound(1, row_starts@.len() - 1, 10);
        }
        let cols_log2 = tile_log2(1, (col_starts.len() - 1) as u32);
        let rows_log2 = tile_log2(1, (row_starts.len() - 1) as u32);
        Cuts { cols_log2, rows_log2, col_starts, row_starts }
    }
}

/// The tile layout.
fn parse_tile_info(r: &mut Cursor<'_>, sb128: bool, mi_cols: u32, mi_rows: u32) -> (res: TileInfo)
    requires
        old(r).wf(),
        1 <= mi_cols <= 16384,
        1 <= mi_rows <= 16384,
    ensures
        final(r).moved(
            old(r),
            tile_info_at(old(r).bytes(), old(r).at(), grid_of(sb128, mi_cols as int, mi_rows as int)).1,
        ),
        res.model() == tile_info_at(
            old(r).bytes(),
            old(r).at(),
            grid_of(sb128, mi_cols as int, mi_rows as int),
        ).0,
        res.wf(),
{
    let ghost g = grid_of(sb128, mi_cols as int, mi_rows as int);
    proof {
        reveal(tile_info_at);
        lemma_p2_values();
    }
    let cuts = if sb128 {
        parse_cuts(r, (mi_cols + 31) / 32, (mi_rows + 31) / 32, 32, 576, Ghost(g))
    } else {
        parse_cuts(r, (mi_cols + 15) / 16, (mi_rows + 15) / 16, 64, 2304, Ghost(g))
    };
    let mut context_update_tile_id: u32 = 0;
    let mut tile_size_bytes: u32 = 1;
    if cuts.cols_log2 > 0 || cuts.rows_log2 > 0 {
        context_update_tile_id = r.f(cuts.rows_log2 + cuts.cols_log2);
        tile_size_bytes = r.f(2) + 1;
    }
    TileInfo {
        cols_log2: cuts.cols_log2,
        rows_log2: cuts.rows_log2,
        cols: (cuts.col_starts.len() - 1) as u32,
        rows: (cuts.row_starts.len() - 1) as u32,
        col_starts_sb: cuts.col_starts,
        row_starts_sb: cuts.row_starts,
        context_update_tile_id,
        tile_size_bytes,
    }
}

/// A quantizer delta.
fn read_delta_q(r: &mut Cursor<'_>) -> (res: i32)
    requires
        old(r).wf(),
    ensures
        final(r).moved(old(r), delta_q_at(old(r).bytes(), old(r).at()).1),
        res == delta_q_at(old(r).bytes(), old(r).at()).0,
        -64 <= res < 64,
{
    proof {
        lemma_p2_values();
    }
    if r.flag() {
        r.su(6)
    } else {
        0
    }
}

/// The quantizer parameters.
fn parse_quantization(r: &mut Cursor<'_>, seq: &SequenceHeader) -> (res: Quantization)
    requires
        old(r).wf(),
    ensures
        final(r).moved(old(r), quantization_at(old(r).bytes(), old(r).at(), seq.model()).1),
        res == quantization_at(old(r).bytes(), old(r).at(), seq.model()).0,
        res.wf(),
{
    proof {
        reveal(quantization_at);
        lemma_p2_values();
    }
    let base_q_idx = r.f(8) as u8;
    let delta_q_y_dc = read_delta_q(r);
    let mut delta_q_u_dc: i32 = 0;
    let mut delta_q_u_ac: i32 = 0;
    let mut delta_q_v_dc: i32 = 0;
    let mut delta_q_v_ac: i32 = 0;
    if seq.color.num_planes > 1 {
        let diff_uv_delta = if seq.color.separate_uv_delta_q {
            r.flag()
        } else {
            false
        };
        delta_q_u_dc = read_delta_q(r);
        delta_q_u_ac = read_delta_q(r);
        if diff_uv_delta {
            delta_q_v_dc = read_delta_q(r);
            delta_q_v_ac = read_delta_q(r);
        } else {
            delta_q_v_dc = delta_q_u_dc;
            delta_q_v_ac = delta_q_u_ac;
        }
    }
    let using_qmatrix = r.flag();
    let mut qm_y: u8 = 0;
    let mut qm_u: u8 = 0;
    let mut qm_v: u8 = 0;
    if using_qmatrix {
        qm_y = r.f(4) as u8;
        qm_u = r.f(4) as u8;
        qm_v = if seq.color.separate_uv_delta_q {
            r.f(4) as u8
        } else {
            qm_u
        };
    }
    Quantization {
        base_q_idx,
        delta_q_y_dc,
        delta_q_u_dc,
        delta_q_u_ac,
        delta_q_v_dc,
        delta_q_v_ac,
        using_qmatrix,
        qm_y,
        qm_u,
        qm_v,
    }
}

/// One segment feature: whether it is on, and its clipped value.
fn parse_feature(r: &mut Cursor<'_>, feature: usize) -> (res: (bool, i32))
    requires
        old(r).wf(),
        feature < 8,
    ensures
        final(r).moved(old(r), feature_at(old(r).bytes(), old(r).at(), feature as int).2),
        res.0 == feature_at(old(r).bytes(), old(r).at(), feature as int).0,
        res.1 == feature_at(old(r).bytes(), old(r).at(), feature as int).1,
        -255 <= res.1 <= 255,
{
    if !r.flag() {
        return (false, 0);
    }
    let n = SEG_FEATURE_BITS[feature];
    let limit = SEG_FEATURE_MAX[feature];
    proof {
        lemma_p2_values();
        lemma_p2_mono(n as int, 8);
    }
    if SEG_FEATURE_SIGNED[feature] {
        let value = r.su(n);
        (true, clamp_i32(value, -limit, limit))
    } else {
        let value = r.f(n) as i32;
        (true, clamp_i32(value, 0, limit))
    }
}

/// The segmentation parameters.
fn parse_segmentation(r: &mut Cursor<'_>) -> (res: Segmentation)
    requires
        old(r).wf(),
    ensures
        final(r).moved(old(r), segmentation_at(old(r).bytes(), old(r).at()).1),
        res.model() == segmentation_at(old(r).bytes(), old(r).at()).0,
        forall|i: int, j: int| 0 <= i < 8 && 0 <= j < 8 ==> -255 <= #[trigger] res.feature_data@[i]@[j] <= 255,
{
    let ghost data = r.bytes();
    proof {
        reveal(segmentation_at);
    }
    let mut seg = Segmentation::disabled();
    if !r.flag() {
        assert(seg.model() =~= segmentation_at(data, old(r).at()).0);
        return seg;
    }
    seg.enabled = true;
    let ghost first = r.at();
    let mut k: usize = 0;
    while k < 64
        invariant
            k <= 64,
            data == old(r).bytes(),
            seg.enabled,
            r.moved(old(r), features_at(data, first, k as int).2),
            features_at(data, first, k as int).0.len() == k,
            features_at(data, first, k as int).1.len() == k,
            forall|j: int|
                0 <= j < k ==> #[trigger] features_at(data, first, k as int).0[j]
                    == seg.feature_enabled@[j / 8]@[j % 8],
            forall|j: int|
                0 <= j < k ==> #[trigger] features_at(data, first, k as int).1[j]
                    == seg.feature_data@[j / 8]@[j % 8],
            forall|i: int, j: int|
                0 <= i < 8 && 0 <= j < 8 ==> -255 <= #[trigger] seg.feature_data@[i]@[j] <= 255,
        decreases 64 - k,
    {
        let (on, value) = parse_feature(r, k % 8);
        seg.feature_enabled[k / 8][k % 8] = on;
        seg.feature_data[k / 8][k % 8] = value;
        k = k + 1;
    }
    assert(seg.model() =~= segmentation_at(data, old(r).at()).0);
    seg
}

/// The quantizer index of a segment.
fn get_qindex(seg: &Segmentation, quant: &Quantization, segment: usize) -> (r: i32)
    requires
        segment < 8,
        forall|i: int, j: int| 0 <= i < 8 && 0 <= j < 8 ==> -255 <= #[trigger] seg.feature_data@[i]@[j] <= 255,
    ensures
        r == qindex(seg.model(), *quant, segment as int),
{
    let base = quant.base_q_idx as i32;
    assert((8 * segment as int) / 8 == segment);
    assert((8 * segment as int) % 8 == 0);
    assert(-255 <= seg.feature_data@[segment as int]@[0] <= 255);
    if seg.feature_active(segment, 0) {
        clamp_i32(base + seg.feature_data[segment][0], 0, 255)
    } else {
        base
    }
}

/// Which segments are coded losslessly, and whether all of them are.
fn find_lossless(seg: &Segmentation, quant: &Quantization) -> (r: ([bool; 8], bool))
    requires
        forall|i: int, j: int| 0 <= i < 8 && 0 <= j < 8 ==> -255 <= #[trigger] seg.feature_data@[i]@[j] <= 255,
    ensures
        r.1 == all_segments_lossless(seg.model(), *quant),
        forall|i: int|
            0 <= i < 8 ==> (#[trigger] r.0@[i] <==> i < segment_count(seg.model()) && segment_lossless(
                seg.model(),
                *quant,
                i,
            )),
{
    let mut lossless = [false; 8];
    let mut all = true;
    let count: usize = if seg.enabled {
        8
    } else {
        1
    };
    let mut segment: usize = 0;
    while segment < count
        invariant
            segment <= count <= 8,
            count == segment_count(seg.model()),
            forall|i: int, j: int|
                0 <= i < 8 && 0 <= j < 8 ==> -255 <= #[trigger] seg.feature_data@[i]@[j] <= 255,
            forall|i: int|
                0 <= i < 8 ==> (#[trigger] lossless@[i] <==> i < segment && segment_lossless(
                    seg.model(),
                    *quant,
                    i,
                )),
            all <==> (forall|i: int| 0 <= i < segment ==> #[trigger] segment_lossless(seg.model(), *quant, i)),
        decreases count - segment,
    {
        let index = get_qindex(seg, quant, segment);
        let is_lossless = index == 0 && quant.delta_q_y_dc == 0 && quant.delta_q_u_ac == 0
            && quant.delta_q_u_dc == 0 && quant.delta_q_v_ac == 0 && quant.delta_q_v_dc == 0;
        assert(is_lossless == segment_lossless(seg.model(), *quant, segment as int));
        lossless[segment] = is_lossless;
        all = all && is_lossless;
        segment = segment + 1;
    }
    (lossless, all)
}

/// The per-block delta parameters, as parsed.
struct Delta {
    q: bool,
    q_res: u32,
    lf: bool,
    lf_res: u32,
    lf_multi: bool,
}

impl Delta {
    spec fn model(&self) -> DeltaModel {
        DeltaModel {
            q: self.q,
            q_res: self.q_res as int,
            lf: self.lf,
            lf_res: self.lf_res as int,
            lf_multi: self.lf_multi,
        }
    }
}

/// The per-block delta parameters.
fn parse_delta(r: &mut Cursor<'_>, base_q_idx: u8, intrabc: bool) -> (res: Delta)
    requires
        old(r).wf(),
    ensures
        final(r).moved(old(r), delta_at(old(r).bytes(), old(r).at(), base_q_idx as int, intrabc).1),
        res.model() == delta_at(old(r).bytes(), old(r).at(), base_q_idx as int, intrabc).0,
{
    proof {
        reveal(delta_at);
    }
    let q = if base_q_idx > 0 {
        r.flag()
    } else {
        false
    };
    let mut q_res: u32 = 0;
    let mut lf = false;
    let mut lf_res: u32 = 0;
    let mut lf_multi = false;
    if q {
        q_res = r.f(2);
        if !intrabc {
            lf = r.flag();
        }
        if lf {
            lf_res = r.f(2);
            lf_multi = r.flag();
        }
    }
    Delta { q, q_res, lf, lf_res, lf_multi }
}

/// Eight optional delta updates.
fn parse_ref_updates(r: &mut Cursor<'_>, deltas: &mut [i32; 8])
    requires
        old(r).wf(),
    ensures
        final(r).moved(
            old(r),
            updates_at(old(r).bytes(), old(r).at(), old(deltas)@.map_values(|x: i32| x as int), 8).1,
        ),
        final(deltas)@.map_values(|x: i32| x as int) == updates_at(
            old(r).bytes(),
            old(r).at(),
            old(deltas)@.map_values(|x: i32| x as int),
            8,
        ).0,
        (forall|i: int| 0 <= i < 8 ==> -64 <= #[trigger] old(deltas)@[i] < 64) ==> (forall|i: int|
            0 <= i < 8 ==> -64 <= #[trigger] final(deltas)@[i] < 64),
{
    proof {
        lemma_p2_values();
    }
    let ghost start = deltas@.map_values(|x: i32| x as int);
    let mut k: usize = 0;
    while k < 8
        invariant
            k <= 8,
            p2(6) == 64,
            (forall|i: int| 0 <= i < 8 ==> -64 <= #[trigger] old(deltas)@[i] < 64) ==> (forall|i: int|
                0 <= i < 8 ==> -64 <= #[trigger] deltas@[i] < 64),
            r.moved(old(r), updates_at(old(r).bytes(), old(r).at(), start, k as int).1),
            deltas@.map_values(|x: i32| x as int) == updates_at(old(r).bytes(), old(r).at(), start, k as int).0,
        decreases 8 - k,
    {
        if r.flag() {
            let ghost before = deltas@;
            let v = r.su(6);
            deltas[k] = v;
            assert(deltas@.map_values(|x: i32| x as int) =~= before.map_values(|x: i32| x as int).update(
                k as int,
                v as int,
            ));
        }
        k = k + 1;
    }
}

/// Two optional delta updates.
fn parse_mode_updates(r: &mut Cursor<'_>, deltas: &mut [i32; 2])
    requires
        old(r).wf(),
    ensures
        final(r).moved(
            old(r),
            updates_at(old(r).bytes(), old(r).at(), old(deltas)@.map_values(|x: i32| x as int), 2).1,
        ),
        final(deltas)@.map_values(|x: i32| x as int) == updates_at(
            old(r).bytes(),
            old(r).at(),
            old(deltas)@.map_values(|x: i32| x as int),
            2,
        ).0,
{
    let ghost start = deltas@.map_values(|x: i32| x as int);
    let mut k: usize = 0;
    while k < 2
        invariant
            k <= 2,
            r.moved(old(r), updates_at(old(r).bytes(), old(r).at(), start, k as int).1),
            deltas@.map_values(|x: i32| x as int) == updates_at(old(r).bytes(), old(r).at(), start, k as int).0,
        decreases 2 - k,
    {
        if r.flag() {
            let ghost before = deltas@;
            let v = r.su(6);
            deltas[k] = v;
            assert(deltas@.map_values(|x: i32| x as int) =~= before.map_values(|x: i32| x as int).update(
                k as int,
                v as int,
            ));
        }
        k = k + 1;
    }
}

/// The loop-filter parameters.
fn parse_loop_filter(r: &mut Cursor<'_>, num_planes: u8, off: bool) -> (res: LoopFilter)
    requires
        old(r).wf(),
    ensures
        final(r).moved(old(r), loop_filter_at(old(r).bytes(), old(r).at(), num_planes as int, off).1),
        res.model() == loop_filter_at(old(r).bytes(), old(r).at(), num_planes as int, off).0,
        res.wf(),
{
    let ghost data = r.bytes();
    let ghost start = r.at();
    proof {
        reveal(loop_filter_at);
        lemma_p2_values();
    }
    let mut ref_deltas: [i32; 8] = [1, 0, 0, 0, -1, 0, -1, -1];
    let mut mode_deltas: [i32; 2] = [0, 0];
    assert(ref_deltas@.map_values(|x: i32| x as int) =~= default_ref_deltas());
    assert(mode_deltas@.map_values(|x: i32| x as int) =~= seq![0int, 0]);
    if off {
        let lf = LoopFilter { level: [0; 4], sharpness: 0, delta_enabled: false, ref_deltas, mode_deltas };
        assert(lf.model() =~= loop_filter_at(data, start, num_planes as int, off).0);
        return lf;
    }
    let l0 = r.f(6) as u8;
    let l1 = r.f(6) as u8;
    let mut l2: u8 = 0;
    let mut l3: u8 = 0;
    if num_planes > 1 && (l0 != 0 || l1 != 0) {
        l2 = r.f(6) as u8;
        l3 = r.f(6) as u8;
    }
    let sharpness = r.f(3) as u8;
    let delta_enabled = r.flag();
    let update = if delta_enabled {
        r.flag()
    } else {
        false
    };
    if update {
        parse_ref_updates(r, &mut ref_deltas);
        parse_mode_updates(r, &mut mode_deltas);
    }
    let lf = LoopFilter { level: [l0, l1, l2, l3], sharpness, delta_enabled, ref_deltas, mode_deltas };
    assert(lf.model() =~= loop_filter_at(data, start, num_planes as int, off).0);
    lf
}

/// The CDEF parameters.
fn parse_cdef(r: &mut Cursor<'_>, num_planes: u8, off: bool) -> (res: Cdef)
    requires
        old(r).wf(),
    ensures
        final(r).moved(old(r), cdef_at(old(r).bytes(), old(r).at(), num_planes as int, off).1),
        res.model() == cdef_at(old(r).bytes(), old(r).at(), num_planes as int, off).0,
{
    let ghost data = r.bytes();
    let ghost start = r.at();
    proof {
        reveal(cdef_at);
        lemma_p2_values();
    }
    let mut y_pri: Vec<u32> = Vec::new();
    let mut y_sec: Vec<u32> = Vec::new();
    let mut uv_pri: Vec<u32> = Vec::new();
    let mut uv_sec: Vec<u32> = Vec::new();
    if off {
        y_pri.push(0);
        y_sec.push(0);
        uv_pri.push(0);
        uv_sec.push(0);
        let cdef = Cdef {
            damping: 3,
            bits: 0,
            y_pri_strength: y_pri,
            y_sec_strength: y_sec,
            uv_pri_strength: uv_pri,
            uv_sec_strength: uv_sec,
        };
        assert(cdef.model() =~= cdef_at(data, start, num_planes as int, off).0);
        return cdef;
    }
    let damping = r.f(2) + 3;
    let n = r.f(2);
    let count = pow2_u32(n);
    let ghost all = cdef_at(data, start, num_planes as int, off).0;
    let ghost step = if num_planes > 1 {
        12int
    } else {
        6
    };
    let mut i: u32 = 0;
    while i < count
        invariant
            i <= count,
            data == old(r).bytes(),
            start == old(r).at(),
            count == p2(n as int),
            step == (if num_planes > 1 {
                12int
            } else {
                6
            }),
            n == bits(data, start + 2, 2),
            !off,
            all == cdef_at(data, start, num_planes as int, off).0,
            r.moved(old(r), start + 4 + step * i),
            y_pri@ == all.y_pri.take(i as int),
            y_sec@ == all.y_sec.take(i as int),
            uv_pri@ == all.uv_pri.take(i as int),
            uv_sec@ == all.uv_sec.take(i as int),
            all.y_pri.len() == count,
            all.y_sec.len() == count,
            all.uv_pri.len() == count,
            all.uv_sec.len() == count,
        decreases count - i,
    {
        proof {
            reveal(cdef_at);
            lemma_p2_values();
        }
        assert(step * (i + 1) == step * i + step) by (nonlinear_arith);
        let pri = r.f(4);
        let sec = r.f(2);
        y_pri.push(pri);
        y_sec.push(if sec == 3 { 4 } else { sec });
        if num_planes > 1 {
            let pri = r.f(4);
            let sec = r.f(2);
            uv_pri.push(pri);
            uv_sec.push(if sec == 3 { 4 } else { sec });
        } else {
            uv_pri.push(0);
            uv_sec.push(0);
        }
        assert(all.y_pri.take(i + 1) =~= all.y_pri.take(i as int).push(all.y_pri[i as int]));
        assert(all.y_sec.take(i + 1) =~= all.y_sec.take(i as int).push(all.y_sec[i as int]));
        assert(all.uv_pri.take(i + 1) =~= all.uv_pri.take(i as int).push(all.uv_pri[i as int]));
        assert(all.uv_sec.take(i + 1) =~= all.uv_sec.take(i as int).push(all.uv_sec[i as int]));
        i = i + 1;
    }
    let cdef = Cdef {
        damping,
        bits: n,
        y_pri_strength: y_pri,
        y_sec_strength: y_sec,
        uv_pri_strength: uv_pri,
        uv_sec_strength: uv_sec,
    };
    assert(cdef.model() =~= all);
    cdef
}

/// The restoration type of one plane.
fn parse_lr_type(r: &mut Cursor<'_>) -> (res: u8)
    requires
        old(r).wf(),
    ensures
        final(r).moved(old(r), old(r).at() + 2),
        res == REMAP_LR_TYPE@[bits(old(r).bytes(), old(r).at(), 2)],
{
    proof {
        lemma_p2_values();
    }
    let v = r.f(2) as usize;
    REMAP_LR_TYPE[v]
}

/// The loop-restoration parameters.
fn parse_lr(r: &mut Cursor<'_>, seq: &SequenceHeader, off: bool) -> (res: LoopRestoration)
    requires
        old(r).wf(),
        seq.wf(),
    ensures
        final(r).moved(old(r), restoration_at(old(r).bytes(), old(r).at(), seq.model(), off).1),
        res.model() == restoration_at(old(r).bytes(), old(r).at(), seq.model(), off).0,
{
    let ghost data = r.bytes();
    let ghost start = r.at();
    let ghost all = restoration_at(data, start, seq.model(), off);
    proof {
        reveal(restoration_at);
        lemma_p2_values();
    }
    if off {
        let lr = LoopRestoration {
            frame_restoration_type: [RESTORE_NONE; 3],
            unit_size: [RESTORATION_TILESIZE_MAX; 3],
            uses_lr: false,
        };
        assert(lr.model() =~= all.0);
        return lr;
    }
    let t0 = parse_lr_type(r);
    let mut t1 = RESTORE_NONE;
    let mut t2 = RESTORE_NONE;
    if seq.color.num_planes > 1 {
        t1 = parse_lr_type(r);
        t2 = parse_lr_type(r);
    }
    let uses_chroma = t1 != RESTORE_NONE || t2 != RESTORE_NONE;
    let uses_lr = t0 != RESTORE_NONE || uses_chroma;
    let mut size: u32 = RESTORATION_TILESIZE_MAX;
    let mut uv_size: u32 = RESTORATION_TILESIZE_MAX;
    if uses_lr {
        let first = r.f(1);
        let shift = if seq.use_128x128_superblock {
            first + 1
        } else if first != 0 {
            first + r.f(1)
        } else {
            0
        };
        let uv_shift = if seq.color.subsampling_x == 1 && seq.color.subsampling_y == 1 && uses_chroma {
            r.f(1)
        } else {
            0
        };
        proof {
            lemma_p2_mono(shift as int, 2);
        }
        size = 64 * pow2_u32(shift);
        uv_size = shr_u32(size, uv_shift);
    }
    let lr = LoopRestoration {
        frame_restoration_type: [t0, t1, t2],
        unit_size: [size, uv_size, uv_size],
        uses_lr,
    };
    assert(lr.model() =~= all.0);
    lr
}

/// Skip `n` values of eight bits.
fn skip_bytes(r: &mut Cursor<'_>, n: u32)
    requires
        old(r).wf(),
    ensures
        final(r).moved(old(r), old(r).at() + 8 * n),
{
    let mut i: u32 = 0;
    while i < n
        invariant
            i <= n,
            r.moved(old(r), old(r).at() + 8 * i),
        decreases n - i,
    {
        let _value = r.f(8);
        i = i + 1;
    }
}

/// Skip the film-grain parameters that follow the seed.
fn skip_grain(r: &mut Cursor<'_>, seq: &SequenceHeader)
    requires
        old(r).wf(),
    ensures
        final(r).moved(old(r), grain_end(old(r).bytes(), old(r).at(), seq.model())),
{
    proof {
        reveal(grain_end);
        lemma_p2_values();
    }
    let mono = seq.color.mono_chrome;
    let num_y_points = r.f(4);
    skip_bytes(r, 2 * num_y_points);
    let from_luma = if mono {
        false
    } else {
        r.flag()
    };
    let mut num_cb_points: u32 = 0;
    let mut num_cr_points: u32 = 0;
    if !(mono || from_luma || (seq.color.subsampling_x == 1 && seq.color.subsampling_y == 1 && num_y_points
        == 0)) {
        num_cb_points = r.f(4);
        skip_bytes(r, 2 * num_cb_points);
        num_cr_points = r.f(4);
        skip_bytes(r, 2 * num_cr_points);
    }
    let _grain_scaling_minus_8 = r.f(2);
    let lag = r.f(2);
    proof {
        assert(0 <= lag * (lag + 1) <= 12) by (nonlinear_arith)
            requires
                0 <= lag <= 3,
        ;
        assert(2 * lag * (lag + 1) == 2 * (lag * (lag + 1))) by (nonlinear_arith);
    }
    let num_pos_luma = 2 * (lag * (lag + 1));
    let mut num_pos_chroma = num_pos_luma;
    if num_y_points > 0 {
        skip_bytes(r, num_pos_luma);
        num_pos_chroma = num_pos_luma + 1;
    }
    if from_luma || num_cb_points > 0 {
        skip_bytes(r, num_pos_chroma);
    }
    if from_luma || num_cr_points > 0 {
        skip_bytes(r, num_pos_chroma);
    }
    let _ar_coeff_shift_minus_6 = r.f(2);
    let _grain_scale_shift = r.f(2);
    if num_cb_points > 0 {
        let _cb_mult = r.f(8);
        let _cb_luma_mult = r.f(8);
        let _cb_offset = r.f(9);
    }
    if num_cr_points > 0 {
        let _cr_mult = r.f(8);
        let _cr_luma_mult = r.f(8);
        let _cr_offset = r.f(9);
    }
    let _overlap_flag = r.f(1);
    let _clip_to_restricted_range = r.f(1);
}

/// The film-grain parameters.
fn parse_film_grain(r: &mut Cursor<'_>, seq: &SequenceHeader, start: &Start) -> (res: FilmGrain)
    requires
        old(r).wf(),
    ensures
        final(r).moved(old(r), film_grain_at(old(r).bytes(), old(r).at(), seq.model(), start.model()).1),
        res == film_grain_at(old(r).bytes(), old(r).at(), seq.model(), start.model()).0,
{
    proof {
        reveal(film_grain_at);
        lemma_p2_values();
    }
    let none = FilmGrain { apply_grain: false, grain_seed: 0 };
    if !seq.film_grain_params_present || (!start.show && !start.showable) {
        return none;
    }
    if !r.flag() {
        return none;
    }
    let grain_seed = r.f(16) as u16;
    skip_grain(r, seq);
    FilmGrain { apply_grain: true, grain_seed }
}

/// The part of a frame header from the frame size to the per-block deltas, as
/// parsed.
struct Layout {
    size: FrameSize,
    render: (u32, u32),
    intrabc: bool,
    no_end_update: bool,
    tiles: TileInfo,
    quant: Quantization,
    seg: Segmentation,
    delta: Delta,
}

impl Layout {
    spec fn model(&self) -> LayoutModel {
        LayoutModel {
            size: self.size.model(),
            render: (self.render.0 as int, self.render.1 as int),
            intrabc: self.intrabc,
            no_end_update: self.no_end_update,
            tiles: self.tiles.model(),
            quant: self.quant,
            seg: self.seg.model(),
            delta: self.delta.model(),
        }
    }
}

/// The part from the frame size to the per-block deltas.
fn parse_layout(r: &mut Cursor<'_>, seq: &SequenceHeader, control: &Control) -> (res: Layout)
    requires
        old(r).wf(),
        seq.wf(),
    ensures
        final(r).moved(old(r), layout_at(old(r).bytes(), old(r).at(), seq.model(), control.model()).1),
        res.model() == layout_at(old(r).bytes(), old(r).at(), seq.model(), control.model()).0,
        res.size.wf(),
        res.tiles.wf(),
        res.quant.wf(),
        forall|i: int, j: int|
            0 <= i < 8 && 0 <= j < 8 ==> -255 <= #[trigger] res.seg.feature_data@[i]@[j] <= 255,
{
    let ghost m = layout_at(r.bytes(), r.at(), seq.model(), control.model()).0;
    proof {
        reveal(layout_at);
    }
    let size = parse_frame_size(r, seq, control.size_override);
    assert(m.size == size.model());
    let render = parse_render_size(r, &size);
    assert(m.render == (render.0 as int, render.1 as int));
    let intrabc = if control.screen_content && size.upscaled == size.width {
        r.flag()
    } else {
        false
    };
    assert(m.intrabc == intrabc);
    let no_end_update = if seq.reduced_still_picture_header || control.freeze {
        true
    } else {
        r.flag()
    };
    assert(m.no_end_update == no_end_update);
    let tiles = parse_tile_info(r, seq.use_128x128_superblock, size.mi_cols, size.mi_rows);
    assert(m.tiles == tiles.model());
    let quant = parse_quantization(r, seq);
    assert(m.quant == quant);
    let seg = parse_segmentation(r);
    assert(m.seg == seg.model());
    let delta = parse_delta(r, quant.base_q_idx, intrabc);
    assert(m.delta == delta.model());
    Layout { size, render, intrabc, no_end_update, tiles, quant, seg, delta }
}

/// The part of a frame header from the loop filter on, as parsed.
struct Filters {
    loop_filter: LoopFilter,
    cdef: Cdef,
    restoration: LoopRestoration,
    tx_mode: TxMode,
    reduced_tx_set: bool,
    film_grain: FilmGrain,
}

impl Filters {
    spec fn model(&self) -> FilterModel {
        FilterModel {
            loop_filter: self.loop_filter.model(),
            cdef: self.cdef.model(),
            restoration: self.restoration.model(),
            tx_mode: self.tx_mode,
            reduced_tx_set: self.reduced_tx_set,
            film_grain: self.film_grain,
        }
    }
}

/// The part from the loop filter on.
fn parse_filters(
    r: &mut Cursor<'_>,
    seq: &SequenceHeader,
    start: &Start,
    lossless: bool,
    unscaled: bool,
    intrabc: bool,
) -> (res: Filters)
    requires
        old(r).wf(),
        seq.wf(),
    ensures
        final(r).moved(
            old(r),
            filters_at(old(r).bytes(), old(r).at(), seq.model(), start.model(), lossless, unscaled, intrabc).1,
        ),
        res.model() == filters_at(
            old(r).bytes(),
            old(r).at(),
            seq.model(),
            start.model(),
            lossless,
            unscaled,
            intrabc,
        ).0,
        res.loop_filter.wf(),
{
    let ghost m = filters_at(r.bytes(), r.at(), seq.model(), start.model(), lossless, unscaled, intrabc).0;
    proof {
        reveal(filters_at);
    }
    let loop_filter = parse_loop_filter(r, seq.color.num_planes, lossless || intrabc);
    assert(m.loop_filter == loop_filter.model());
    let cdef = parse_cdef(r, seq.color.num_planes, lossless || intrabc || !seq.enable_cdef);
    assert(m.cdef == cdef.model());
    let restoration = parse_lr(r, seq, (lossless && unscaled) || intrabc || !seq.enable_restoration);
    assert(m.restoration == restoration.model());
    let tx_mode = if lossless {
        TxMode::Only4x4
    } else if r.flag() {
        TxMode::Select
    } else {
        TxMode::Largest
    };
    assert(m.tx_mode == tx_mode);
    let reduced_tx_set = r.flag();
    let film_grain = parse_film_grain(r, seq, start);
    assert(m.film_grain == film_grain);
    Filters { loop_filter, cdef, restoration, tx_mode, reduced_tx_set, film_grain }
}

impl FrameHeader {
    /// Parse an intra frame header, given the governing sequence header and the
    /// OBU's temporal and spatial layer ids.
    pub fn parse(r: &mut BitReader<'_>, seq: &SequenceHeader, temporal_id: u8, spatial_id: u8) -> (res: Outcome<
        Self,
    >)
        requires
            old(r).wf(),
            seq.wf(),
            temporal_id < 16,
            spatial_id < 8,
        ensures
            final(r).bytes() == old(r).bytes(),
            final(r).wf(),
            ({
                let (data, pos) = (old(r).bytes(), old(r).at());
                let failure = frame_failure(data, pos, seq.model(), temporal_id as int, spatial_id as int);
                let (m, end) = frame_at(data, pos, seq.model(), temporal_id as int, spatial_id as int);
                &&& res is Ok <==> failure is None
                &&& res is Ok ==> res->Ok_0.model() == m && res->Ok_0.wf() && final(r).at() == end
                &&& res is Err ==> Some(res->Err_0.fault()) == failure && final(r).at() == frame_stop(
                    data,
                    pos,
                    seq.model(),
                )
            }),
    {
        let mut c = r.cursor();
        proof {
            reveal(frame_at);
        }
        let start = parse_start(&mut c, seq);
        if start.existing {
            proof {
                reveal(start_at);
                lemma_flag_within(r.bytes(), r.at());
            }
            r.skip_bits(1)?;
            return Err(
                PixelsError::unsupported(
                    "avif: show_existing_frame is an animation/reference feature outside the still-picture subset",
                ),
            );
        }
        r.commit(&c)?;
        if start.kind != KEY_FRAME && start.kind != INTRA_ONLY_FRAME {
            return Err(PixelsError::unsupported("avif: inter frames are outside the still-picture subset"));
        }
        let header = FrameHeader::parse_rest(&mut c, seq, start, temporal_id, spatial_id, Ghost(old(r).at()));
        r.commit(&c)?;
        Ok(header)
    }

    /// Everything after the frame type of an intra frame whose header starts at
    /// `pos`.
    fn parse_rest(
        c: &mut Cursor<'_>,
        seq: &SequenceHeader,
        start: Start,
        temporal_id: u8,
        spatial_id: u8,
        Ghost(pos): Ghost<int>,
    ) -> (res: Self)
        requires
            old(c).wf(),
            seq.wf(),
            temporal_id < 16,
            spatial_id < 8,
            !start.existing,
            start.kind == KEY_FRAME || start.kind == INTRA_ONLY_FRAME,
            start_at(old(c).bytes(), pos, seq.model()) == (start.model(), old(c).at()),
        ensures
            final(c).moved(
                old(c),
                frame_at(old(c).bytes(), pos, seq.model(), temporal_id as int, spatial_id as int).1,
            ),
            res.model() == frame_at(old(c).bytes(), pos, seq.model(), temporal_id as int, spatial_id as int).0,
            res.wf(),
    {
        let ghost m = frame_at(c.bytes(), pos, seq.model(), temporal_id as int, spatial_id as int).0;
        proof {
            reveal(frame_at);
        }
        assert(m.start == start.model());
        let control = parse_control(c, seq, &start, temporal_id, spatial_id);
        assert(m.freeze == control.freeze && m.screen_content == control.screen_content);
        let layout = parse_layout(c, seq, &control);
        let ghost l = layout.model();
        assert(m.size == l.size && m.render == l.render && m.intrabc == l.intrabc);
        assert(m.tiles == l.tiles && m.quant == l.quant && m.seg == l.seg && m.delta == l.delta);
        let (lossless, coded_lossless) = find_lossless(&layout.seg, &layout.quant);
        let unscaled = layout.size.width == layout.size.upscaled;
        let filters = parse_filters(c, seq, &start, coded_lossless, unscaled, layout.intrabc);
        let ghost f = filters.model();
        assert(m.loop_filter == f.loop_filter && m.cdef == f.cdef && m.restoration == f.restoration);
        assert(m.tx_mode == f.tx_mode && m.reduced_tx_set == f.reduced_tx_set && m.film_grain == f.film_grain);
        let header = FrameHeader::assemble(start, control, layout, lossless, coded_lossless, filters);
        assert(header.model() == m);
        header
    }

    /// Put the parts of a frame header together.
    fn assemble(
        start: Start,
        control: Control,
        layout: Layout,
        lossless: [bool; 8],
        coded_lossless: bool,
        filters: Filters,
    ) -> (res: Self)
        requires
            !start.existing,
            layout.size.wf(),
            layout.tiles.wf(),
            layout.quant.wf(),
            filters.loop_filter.wf(),
            coded_lossless == all_segments_lossless(layout.seg.model(), layout.quant),
            forall|i: int|
                0 <= i < 8 ==> (#[trigger] lossless@[i] <==> i < segment_count(layout.seg.model())
                    && segment_lossless(layout.seg.model(), layout.quant, i)),
        ensures
            res.wf(),
            res.model() == (FrameModel {
                start: start.model(),
                freeze: control.freeze,
                screen_content: control.screen_content,
                size: layout.size.model(),
                render: layout.model().render,
                intrabc: layout.intrabc,
                no_end_update: layout.no_end_update,
                tiles: layout.tiles.model(),
                quant: layout.quant,
                seg: layout.seg.model(),
                delta: layout.delta.model(),
                loop_filter: filters.loop_filter.model(),
                cdef: filters.cdef.model(),
                restoration: filters.restoration.model(),
                tx_mode: filters.tx_mode,
                reduced_tx_set: filters.reduced_tx_set,
                film_grain: filters.film_grain,
            }),
    {
        let unscaled = layout.size.width == layout.size.upscaled;
        FrameHeader {
            frame_type: start.kind,
            show_frame: start.show,
            showable_frame: start.showable,
            error_resilient_mode: start.resilient,
            disable_cdf_update: control.freeze,
            allow_screen_content_tools: control.screen_content,
            frame_width: layout.size.width,
            frame_height: layout.size.height,
            upscaled_width: layout.size.upscaled,
            render_width: layout.render.0,
            render_height: layout.render.1,
            superres_denom: layout.size.denom,
            mi_cols: layout.size.mi_cols,
            mi_rows: layout.size.mi_rows,
            allow_intrabc: layout.intrabc,
            disable_frame_end_update_cdf: layout.no_end_update,
            tile_info: layout.tiles,
            quantization: layout.quant,
            segmentation: layout.seg,
            delta_q_present: layout.delta.q,
            delta_q_res: layout.delta.q_res,
            delta_lf_present: layout.delta.lf,
            delta_lf_res: layout.delta.lf_res,
            delta_lf_multi: layout.delta.lf_multi,
            coded_lossless,
            all_lossless: coded_lossless && unscaled,
            lossless,
            loop_filter: filters.loop_filter,
            cdef: filters.cdef,
            loop_restoration: filters.restoration,
            tx_mode: filters.tx_mode,
            reduced_tx_set: filters.reduced_tx_set,
            film_grain: filters.film_grain,
        }
    }
}

} // verus!
