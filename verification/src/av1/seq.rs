//! The AV1 sequence header.
//!
//! One sequence header governs every frame that follows it: the maximum frame
//! size, which coding tools are enabled, the superblock size, and the colour
//! configuration. The whole header is parsed even though a still image leaves most
//! of its inter-prediction switches off: the fields sit in a fixed order with no
//! length prefix, so a field skipped is every field after it misread.
use super::bits::{BitReader, Cursor, bits, ended, flag_at, uvlc_at};
use crate::error::{ErrorCode, Outcome, PixelsError};
use crate::math::{lemma_p2_mono, lemma_p2_values, min, p2};
use vstd::prelude::*;

verus! {

/// The sentinel that defers a choice to each frame header.
pub const SELECT: u8 = 2;

/// Colour primaries of BT.709.
pub const CP_BT_709: u8 = 1;
/// The sRGB transfer function.
pub const TC_SRGB: u8 = 13;
/// The identity matrix: the planes are G, B and R.
pub const MC_IDENTITY: u8 = 0;
/// Unspecified primaries.
pub const CP_UNSPECIFIED: u8 = 2;
/// An unspecified transfer function.
pub const TC_UNSPECIFIED: u8 = 2;
/// An unspecified matrix.
pub const MC_UNSPECIFIED: u8 = 2;

/// One operating point. A still image has exactly one and decodes it.
#[derive(Debug, Clone, Copy, PartialEq, Eq, Structural)]
pub struct OperatingPoint {
    /// The layer bitmask this point selects.
    pub idc: u16,
    /// The AV1 level.
    pub seq_level_idx: u8,
    /// Main (0) or High (1) tier.
    pub seq_tier: u8,
}

/// The colour configuration.
#[derive(Debug, Clone, Copy, PartialEq, Eq, Structural)]
pub struct ColorConfig {
    /// Sample bit depth: 8, 10 or 12.
    pub bit_depth: u8,
    /// Whether the stream carries only a luma plane.
    pub mono_chrome: bool,
    /// 1 for monochrome, 3 otherwise.
    pub num_planes: u8,
    /// CICP colour primaries.
    pub color_primaries: u8,
    /// CICP transfer characteristics.
    pub transfer_characteristics: u8,
    /// CICP matrix coefficients.
    pub matrix_coefficients: u8,
    /// Full-range versus studio-range samples.
    pub color_range: bool,
    /// Horizontal chroma subsampling (0 or 1).
    pub subsampling_x: u8,
    /// Vertical chroma subsampling (0 or 1).
    pub subsampling_y: u8,
    /// Siting of chroma against luma.
    pub chroma_sample_position: u8,
    /// Whether U and V carry independent delta-Q.
    pub separate_uv_delta_q: bool,
}

/// A fully parsed sequence header.
#[derive(Debug, Clone)]
pub struct SequenceHeader {
    /// 0, 1 or 2.
    pub seq_profile: u8,
    /// Whether the stream is flagged as a single still picture.
    pub still_picture: bool,
    /// Whether the compact still-picture header form was used.
    pub reduced_still_picture_header: bool,
    /// Every operating point in declaration order.
    pub operating_points: Vec<OperatingPoint>,
    /// The layer mask of the first operating point.
    pub operating_point_idc: u16,
    /// Bits used to code a frame width.
    pub frame_width_bits: u32,
    /// Bits used to code a frame height.
    pub frame_height_bits: u32,
    /// Maximum frame width in samples.
    pub max_frame_width: u32,
    /// Maximum frame height in samples.
    pub max_frame_height: u32,
    /// Whether frames carry explicit frame-id numbers.
    pub frame_id_numbers_present: bool,
    /// Bits of a frame-id difference, when ids are present.
    pub delta_frame_id_length: u32,
    /// Further bits of a frame id, when ids are present.
    pub additional_frame_id_length: u32,
    /// Whether superblocks are 128x128 or 64x64.
    pub use_128x128_superblock: bool,
    /// Whether filter-intra prediction is enabled.
    pub enable_filter_intra: bool,
    /// Whether the intra edge filter is enabled.
    pub enable_intra_edge_filter: bool,
    /// Whether inter-intra compound is enabled.
    pub enable_interintra_compound: bool,
    /// Whether masked compound is enabled.
    pub enable_masked_compound: bool,
    /// Whether warped motion is enabled.
    pub enable_warped_motion: bool,
    /// Whether the dual interpolation filter is enabled.
    pub enable_dual_filter: bool,
    /// Whether order hints are coded.
    pub enable_order_hint: bool,
    /// Whether distance-weighted compound is enabled.
    pub enable_jnt_comp: bool,
    /// Whether reference-frame motion vectors are enabled.
    pub enable_ref_frame_mvs: bool,
    /// Whether screen-content tools are forced, possibly [`SELECT`].
    pub seq_force_screen_content_tools: u8,
    /// Whether integer motion vectors are forced, possibly [`SELECT`].
    pub seq_force_integer_mv: u8,
    /// Bits used to code an order hint, 0 when disabled.
    pub order_hint_bits: u32,
    /// Whether super-resolution is enabled.
    pub enable_superres: bool,
    /// Whether CDEF is enabled.
    pub enable_cdef: bool,
    /// Whether loop restoration is enabled.
    pub enable_restoration: bool,
    /// The colour configuration.
    pub color: ColorConfig,
    /// Whether film-grain parameters may appear in frame headers.
    pub film_grain_params_present: bool,
    /// Whether a decoder model was signalled.
    pub decoder_model_info_present: bool,
    /// Bits of a buffer delay, from the decoder model.
    pub buffer_delay_length: u32,
    /// Bits of a buffer removal time, from the decoder model.
    pub buffer_removal_time_length: u32,
    /// Bits of a frame presentation time, from the decoder model.
    pub frame_presentation_time_length: u32,
    /// Whether pictures are equally spaced in time.
    pub equal_picture_interval: bool,
    /// Whether timing information was present.
    pub timing_info_present: bool,
}

/// What the timing and operating-point section of a sequence header says.
pub struct OperatingModel {
    /// Whether timing information is present.
    pub timing: bool,
    /// Whether pictures are equally spaced.
    pub equal_interval: bool,
    /// Whether a decoder model is present.
    pub model: bool,
    /// Bits of a buffer delay.
    pub delay: int,
    /// Bits of a buffer removal time.
    pub removal: int,
    /// Bits of a frame presentation time.
    pub presentation: int,
    /// The operating points.
    pub points: Seq<OperatingPoint>,
}

/// What the section of inter-prediction switches says.
pub struct ToolsModel {
    /// Inter-intra compound.
    pub interintra: bool,
    /// Masked compound.
    pub masked: bool,
    /// Warped motion.
    pub warped: bool,
    /// Dual interpolation filter.
    pub dual: bool,
    /// Order hints.
    pub order_hint: bool,
    /// Distance-weighted compound.
    pub jnt_comp: bool,
    /// Reference-frame motion vectors.
    pub ref_mvs: bool,
    /// Forced screen-content tools, or [`SELECT`].
    pub screen_content: int,
    /// Forced integer motion vectors, or [`SELECT`].
    pub integer_mv: int,
    /// Bits of an order hint.
    pub hint_bits: int,
}

/// Where the timing information at `pos` ends, and whether it says that pictures
/// are equally spaced.
pub open spec fn timing_at(data: Seq<u8>, pos: int) -> (bool, int) {
    let equal = flag_at(data, pos + 64);
    (equal, if equal {
        uvlc_at(data, pos + 65).1
    } else {
        pos + 65
    })
}

/// One operating point at `pos`, and where it ends.
pub open spec fn point_at(data: Seq<u8>, pos: int, model: bool, delay: int, display: bool) -> (
    OperatingPoint,
    int,
) {
    let level = bits(data, pos + 12, 5);
    let p1 = pos + 17 + if level > 7 {
        1int
    } else {
        0
    };
    let point = OperatingPoint {
        idc: bits(data, pos, 12) as u16,
        seq_level_idx: level as u8,
        seq_tier: if level > 7 {
            bits(data, pos + 17, 1) as u8
        } else {
            0
        },
    };
    let p2 = if !model {
        p1
    } else if flag_at(data, p1) {
        p1 + 1 + 2 * delay + 1
    } else {
        p1 + 1
    };
    let p3 = if !display {
        p2
    } else if flag_at(data, p2) {
        p2 + 5
    } else {
        p2 + 1
    };
    (point, p3)
}

/// The first `n` operating points from `pos` on, and where they end.
pub open spec fn points_at(data: Seq<u8>, pos: int, model: bool, delay: int, display: bool, n: int) -> (
    Seq<OperatingPoint>,
    int,
)
    decreases n,
{
    if n <= 0 {
        (Seq::empty(), pos)
    } else {
        let (points, p) = points_at(data, pos, model, delay, display, n - 1);
        let (point, end) = point_at(data, p, model, delay, display);
        (points.push(point), end)
    }
}

/// The timing and operating-point section at `pos`, and where it ends.
#[verifier::opaque]
pub open spec fn operating_at(data: Seq<u8>, pos: int, reduced: bool) -> (OperatingModel, int) {
    if reduced {
        (
            OperatingModel {
                timing: false,
                equal_interval: false,
                model: false,
                delay: 0,
                removal: 0,
                presentation: 0,
                points: seq![
                    OperatingPoint { idc: 0, seq_level_idx: bits(data, pos, 5) as u8, seq_tier: 0 },
                ],
            },
            pos + 5,
        )
    } else {
        let timing = flag_at(data, pos);
        let (equal, after_timing) = timing_at(data, pos + 1);
        let model = timing && flag_at(data, after_timing);
        let m = after_timing + 1;
        let p1 = if !timing {
            pos + 1
        } else if model {
            m + 47
        } else {
            m
        };
        let delay = if model {
            bits(data, m, 5) + 1
        } else {
            0
        };
        let count = bits(data, p1 + 1, 5) + 1;
        let (points, end) = points_at(data, p1 + 6, model, delay, flag_at(data, p1), count);
        (
            OperatingModel {
                timing,
                equal_interval: timing && equal,
                model,
                delay,
                removal: if model {
                    bits(data, m + 37, 5) + 1
                } else {
                    0
                },
                presentation: if model {
                    bits(data, m + 42, 5) + 1
                } else {
                    0
                },
                points,
            },
            end,
        )
    }
}

/// The section of inter-prediction switches at `pos`, and where it ends. The
/// reduced header leaves it out, with every tool off and every choice deferred.
#[verifier::opaque]
pub open spec fn tools_at(data: Seq<u8>, pos: int, reduced: bool) -> (ToolsModel, int) {
    if reduced {
        (
            ToolsModel {
                interintra: false,
                masked: false,
                warped: false,
                dual: false,
                order_hint: false,
                jnt_comp: false,
                ref_mvs: false,
                screen_content: SELECT as int,
                integer_mv: SELECT as int,
                hint_bits: 0,
            },
            pos,
        )
    } else {
        let hint = flag_at(data, pos + 4);
        let p1 = pos + 5 + if hint {
            2int
        } else {
            0
        };
        let choose_sct = flag_at(data, p1);
        let sct = if choose_sct {
            SELECT as int
        } else {
            bits(data, p1 + 1, 1)
        };
        let p2 = p1 + 1 + if choose_sct {
            0int
        } else {
            1
        };
        let choose_mv = flag_at(data, p2);
        let p3 = if sct > 0 {
            p2 + 1 + if choose_mv {
                0int
            } else {
                1
            }
        } else {
            p2
        };
        (
            ToolsModel {
                interintra: flag_at(data, pos),
                masked: flag_at(data, pos + 1),
                warped: flag_at(data, pos + 2),
                dual: flag_at(data, pos + 3),
                order_hint: hint,
                jnt_comp: hint && flag_at(data, pos + 5),
                ref_mvs: hint && flag_at(data, pos + 6),
                screen_content: sct,
                integer_mv: if sct > 0 && !choose_mv {
                    bits(data, p2 + 1, 1)
                } else {
                    SELECT as int
                },
                hint_bits: if hint {
                    bits(data, p3, 3) + 1
                } else {
                    0
                },
            },
            p3 + if hint {
                3int
            } else {
                0
            },
        )
    }
}

/// Bit depth at `pos`, and where it ends.
pub open spec fn depth_at(data: Seq<u8>, pos: int, profile: int) -> (int, int) {
    let high = flag_at(data, pos);
    if profile == 2 && high {
        (if flag_at(data, pos + 1) {
            12
        } else {
            10
        }, pos + 2)
    } else {
        (if high {
            10
        } else {
            8
        }, pos + 1)
    }
}

/// The sampling of chroma at `pos`, and where it ends: range flag, horizontal and
/// vertical subsampling.
pub open spec fn sampling_at(data: Seq<u8>, pos: int, profile: int, depth: int, srgb: bool) -> (
    (bool, int, int),
    int,
) {
    if srgb {
        ((true, 0, 0), pos)
    } else {
        let range = flag_at(data, pos);
        if profile == 0 {
            ((range, 1, 1), pos + 1)
        } else if profile == 1 {
            ((range, 0, 0), pos + 1)
        } else if depth == 12 {
            let x = bits(data, pos + 1, 1);
            if x != 0 {
                ((range, x, bits(data, pos + 2, 1)), pos + 3)
            } else {
                ((range, x, 0), pos + 2)
            }
        } else {
            ((range, 1, 0), pos + 1)
        }
    }
}

/// The colour configuration at `pos`, and where it ends.
#[verifier::opaque]
pub open spec fn color_at(data: Seq<u8>, pos: int, profile: int) -> (ColorConfig, int) {
    let (depth, p1) = depth_at(data, pos, profile);
    let mono = profile != 1 && flag_at(data, p1);
    let p2 = p1 + if profile == 1 {
        0int
    } else {
        1
    };
    let described = flag_at(data, p2);
    let primaries = if described {
        bits(data, p2 + 1, 8)
    } else {
        CP_UNSPECIFIED as int
    };
    let transfer = if described {
        bits(data, p2 + 9, 8)
    } else {
        TC_UNSPECIFIED as int
    };
    let matrix = if described {
        bits(data, p2 + 17, 8)
    } else {
        MC_UNSPECIFIED as int
    };
    let p3 = p2 + 1 + if described {
        24int
    } else {
        0
    };
    let srgb = primaries == CP_BT_709 && transfer == TC_SRGB && matrix == MC_IDENTITY;
    let ((range, x, y), p4) = sampling_at(data, p3, profile, depth, srgb);
    let p5 = p4 + if x == 1 && y == 1 {
        2int
    } else {
        0
    };
    let base = ColorConfig {
        bit_depth: depth as u8,
        mono_chrome: mono,
        num_planes: if mono {
            1
        } else {
            3
        },
        color_primaries: primaries as u8,
        transfer_characteristics: transfer as u8,
        matrix_coefficients: matrix as u8,
        color_range: flag_at(data, p3),
        subsampling_x: 1,
        subsampling_y: 1,
        chroma_sample_position: 0,
        separate_uv_delta_q: false,
    };
    if mono {
        (base, p3 + 1)
    } else {
        (
            ColorConfig {
                color_range: range,
                subsampling_x: x as u8,
                subsampling_y: y as u8,
                chroma_sample_position: if x == 1 && y == 1 {
                    bits(data, p4, 2) as u8
                } else {
                    0
                },
                separate_uv_delta_q: flag_at(data, p5),
                ..base
            },
            p5 + 1,
        )
    }
}

/// What the section on frame sizes says.
pub struct SizeModel {
    /// Bits of a frame width and height.
    pub size_bits: (int, int),
    /// Maximum frame width and height.
    pub max_size: (int, int),
    /// Whether frame ids are present, and the two lengths they have.
    pub frame_ids: (bool, int, int),
}

/// The section on frame sizes at `pos`, and where it ends.
#[verifier::opaque]
pub open spec fn size_at(data: Seq<u8>, pos: int, reduced: bool) -> (SizeModel, int) {
    let wb = bits(data, pos, 4) + 1;
    let hb = bits(data, pos + 4, 4) + 1;
    let p2 = pos + 8 + wb + hb;
    let ids = !reduced && flag_at(data, p2);
    let p3 = p2 + if reduced {
        0int
    } else {
        1
    };
    (
        SizeModel {
            size_bits: (wb, hb),
            max_size: (bits(data, pos + 8, wb) + 1, bits(data, pos + 8 + wb, hb) + 1),
            frame_ids: (ids, if ids {
                bits(data, p3, 4) + 2
            } else {
                0
            }, if ids {
                bits(data, p3 + 4, 3) + 1
            } else {
                0
            }),
        },
        p3 + if ids {
            7int
        } else {
            0
        },
    )
}

/// What a sequence header says.
pub struct SequenceModel {
    /// The profile.
    pub profile: int,
    /// Whether the stream is a single still picture.
    pub still: bool,
    /// Whether the compact form was used.
    pub reduced: bool,
    /// Timing and operating points.
    pub operating: OperatingModel,
    /// Frame sizes.
    pub size: SizeModel,
    /// 128x128 superblocks.
    pub sb128: bool,
    /// Filter-intra prediction.
    pub filter_intra: bool,
    /// The intra edge filter.
    pub edge_filter: bool,
    /// Inter-prediction switches.
    pub tools: ToolsModel,
    /// Super-resolution.
    pub superres: bool,
    /// CDEF.
    pub cdef: bool,
    /// Loop restoration.
    pub restoration: bool,
    /// The colour configuration.
    pub color: ColorConfig,
    /// Film-grain parameters.
    pub film_grain: bool,
}

/// The sequence header at bit `pos` of `data`, and where it ends.
pub open spec fn sequence_at(data: Seq<u8>, pos: int) -> (SequenceModel, int) {
    let profile = bits(data, pos, 3);
    let reduced = flag_at(data, pos + 4);
    let (operating, p1) = operating_at(data, pos + 5, reduced);
    let (size, p4) = size_at(data, p1, reduced);
    let (tools, p5) = tools_at(data, p4 + 3, reduced);
    let (color, p6) = color_at(data, p5 + 3, profile);
    (
        SequenceModel {
            profile,
            still: flag_at(data, pos + 3),
            reduced,
            operating,
            size,
            sb128: flag_at(data, p4),
            filter_intra: flag_at(data, p4 + 1),
            edge_filter: flag_at(data, p4 + 2),
            tools,
            superres: flag_at(data, p5),
            cdef: flag_at(data, p5 + 1),
            restoration: flag_at(data, p5 + 2),
            color,
            film_grain: flag_at(data, p6),
        },
        p6 + 1,
    )
}

impl SequenceHeader {
    /// What this header says.
    pub open spec fn model(&self) -> SequenceModel {
        SequenceModel {
            profile: self.seq_profile as int,
            still: self.still_picture,
            reduced: self.reduced_still_picture_header,
            operating: OperatingModel {
                timing: self.timing_info_present,
                equal_interval: self.equal_picture_interval,
                model: self.decoder_model_info_present,
                delay: self.buffer_delay_length as int,
                removal: self.buffer_removal_time_length as int,
                presentation: self.frame_presentation_time_length as int,
                points: self.operating_points@,
            },
            size: SizeModel {
                size_bits: (self.frame_width_bits as int, self.frame_height_bits as int),
                max_size: (self.max_frame_width as int, self.max_frame_height as int),
                frame_ids: (
                    self.frame_id_numbers_present,
                    self.delta_frame_id_length as int,
                    self.additional_frame_id_length as int,
                ),
            },
            sb128: self.use_128x128_superblock,
            filter_intra: self.enable_filter_intra,
            edge_filter: self.enable_intra_edge_filter,
            tools: ToolsModel {
                interintra: self.enable_interintra_compound,
                masked: self.enable_masked_compound,
                warped: self.enable_warped_motion,
                dual: self.enable_dual_filter,
                order_hint: self.enable_order_hint,
                jnt_comp: self.enable_jnt_comp,
                ref_mvs: self.enable_ref_frame_mvs,
                screen_content: self.seq_force_screen_content_tools as int,
                integer_mv: self.seq_force_integer_mv as int,
                hint_bits: self.order_hint_bits as int,
            },
            superres: self.enable_superres,
            cdef: self.enable_cdef,
            restoration: self.enable_restoration,
            color: self.color,
            film_grain: self.film_grain_params_present,
        }
    }

    /// What holds of every parsed header: its widths are those the syntax can code.
    pub open spec fn wf(&self) -> bool {
        &&& self.seq_profile <= 2
        &&& 1 <= self.frame_width_bits <= 16
        &&& 1 <= self.frame_height_bits <= 16
        &&& 1 <= self.max_frame_width <= 65536
        &&& 1 <= self.max_frame_height <= 65536
        &&& self.delta_frame_id_length <= 17
        &&& self.additional_frame_id_length <= 8
        &&& self.order_hint_bits <= 8
        &&& self.buffer_delay_length <= 32
        &&& self.buffer_removal_time_length <= 32
        &&& self.frame_presentation_time_length <= 32
        &&& self.color.bit_depth == 8 || self.color.bit_depth == 10 || self.color.bit_depth == 12
        &&& self.color.num_planes == 1 || self.color.num_planes == 3
        &&& self.operating_points@.len() >= 1
        &&& self.operating_point_idc == self.operating_points@[0].idc
    }
}

/// The timing and operating-point section, as parsed.
struct Operating {
    timing: bool,
    equal_interval: bool,
    model: bool,
    delay: u32,
    removal: u32,
    presentation: u32,
    points: Vec<OperatingPoint>,
}

impl Operating {
    spec fn model(&self) -> OperatingModel {
        OperatingModel {
            timing: self.timing,
            equal_interval: self.equal_interval,
            model: self.model,
            delay: self.delay as int,
            removal: self.removal as int,
            presentation: self.presentation as int,
            points: self.points@,
        }
    }
}

/// The inter-prediction switches, as parsed.
struct Tools {
    interintra: bool,
    masked: bool,
    warped: bool,
    dual: bool,
    order_hint: bool,
    jnt_comp: bool,
    ref_mvs: bool,
    screen_content: u8,
    integer_mv: u8,
    hint_bits: u32,
}

impl Tools {
    spec fn model(&self) -> ToolsModel {
        ToolsModel {
            interintra: self.interintra,
            masked: self.masked,
            warped: self.warped,
            dual: self.dual,
            order_hint: self.order_hint,
            jnt_comp: self.jnt_comp,
            ref_mvs: self.ref_mvs,
            screen_content: self.screen_content as int,
            integer_mv: self.integer_mv as int,
            hint_bits: self.hint_bits as int,
        }
    }
}

/// Timing information. Returns whether pictures are equally spaced.
fn parse_timing_info(r: &mut Cursor<'_>) -> (res: bool)
    requires
        old(r).wf(),
    ensures
        final(r).moved(old(r), timing_at(old(r).bytes(), old(r).at()).1),
        res == timing_at(old(r).bytes(), old(r).at()).0,
{
    let _num_units_in_display_tick = r.f(32);
    let _time_scale = r.f(32);
    let equal_picture_interval = r.flag();
    if equal_picture_interval {
        let _num_ticks_per_picture_minus_1 = r.uvlc();
    }
    equal_picture_interval
}

/// Decoder model information. Returns the three lengths the frame header needs.
fn parse_decoder_model_info(r: &mut Cursor<'_>) -> (res: (u32, u32, u32))
    requires
        old(r).wf(),
    ensures
        final(r).moved(old(r), old(r).at() + 47),
        res.0 == bits(old(r).bytes(), old(r).at(), 5) + 1,
        res.1 == bits(old(r).bytes(), old(r).at() + 37, 5) + 1,
        res.2 == bits(old(r).bytes(), old(r).at() + 42, 5) + 1,
        res.0 <= 32 && res.1 <= 32 && res.2 <= 32,
{
    proof {
        lemma_p2_values();
    }
    let buffer_delay_length = r.f(5) + 1;
    let _num_units_in_decoding_tick = r.f(32);
    let buffer_removal_time_length = r.f(5) + 1;
    let frame_presentation_time_length = r.f(5) + 1;
    (buffer_delay_length, buffer_removal_time_length, frame_presentation_time_length)
}

/// One operating point.
fn parse_point(r: &mut Cursor<'_>, model: bool, delay: u32, display: bool) -> (res: OperatingPoint)
    requires
        old(r).wf(),
        delay <= 32,
    ensures
        final(r).moved(old(r), point_at(old(r).bytes(), old(r).at(), model, delay as int, display).1),
        res == point_at(old(r).bytes(), old(r).at(), model, delay as int, display).0,
{
    proof {
        lemma_p2_values();
    }
    let idc = r.f(12) as u16;
    let seq_level_idx = r.f(5) as u8;
    let seq_tier = if seq_level_idx > 7 {
        r.f(1) as u8
    } else {
        0
    };
    if model {
        let present_for_op = r.flag();
        if present_for_op {
            let _decoder_buffer_delay = r.f(delay);
            let _encoder_buffer_delay = r.f(delay);
            let _low_delay_mode_flag = r.f(1);
        }
    }
    if display {
        let present_for_op = r.flag();
        if present_for_op {
            let _initial_display_delay_minus_1 = r.f(4);
        }
    }
    OperatingPoint { idc, seq_level_idx, seq_tier }
}

/// The timing and operating-point section.
fn parse_operating(r: &mut Cursor<'_>, reduced: bool) -> (res: Operating)
    requires
        old(r).wf(),
    ensures
        final(r).moved(old(r), operating_at(old(r).bytes(), old(r).at(), reduced).1),
        res.model() == operating_at(old(r).bytes(), old(r).at(), reduced).0,
        res.delay <= 32 && res.removal <= 32 && res.presentation <= 32,
        res.points@.len() >= 1,
{
    let ghost data = r.bytes();
    let ghost start = r.at();
    proof {
        reveal(operating_at);
        lemma_p2_values();
    }
    let mut points: Vec<OperatingPoint> = Vec::new();
    if reduced {
        let seq_level_idx = r.f(5) as u8;
        points.push(OperatingPoint { idc: 0, seq_level_idx, seq_tier: 0 });
        assert(points@ =~= operating_at(data, start, true).0.points);
        return Operating {
            timing: false,
            equal_interval: false,
            model: false,
            delay: 0,
            removal: 0,
            presentation: 0,
            points,
        };
    }
    let timing = r.flag();
    let mut equal_interval = false;
    let mut model = false;
    let mut delay: u32 = 0;
    let mut removal: u32 = 0;
    let mut presentation: u32 = 0;
    if timing {
        equal_interval = parse_timing_info(r);
        model = r.flag();
        if model {
            let lengths = parse_decoder_model_info(r);
            delay = lengths.0;
            removal = lengths.1;
            presentation = lengths.2;
        }
    }
    let display = r.flag();
    let count = r.f(5) + 1;
    let ghost first = r.at();
    let mut i: u32 = 0;
    while i < count
        invariant
            i <= count <= 32,
            delay <= 32,
            data == old(r).bytes(),
            r.moved(old(r), points_at(data, first, model, delay as int, display, i as int).1),
            points@ == points_at(data, first, model, delay as int, display, i as int).0,
            points@.len() == i,
        decreases count - i,
    {
        let point = parse_point(r, model, delay, display);
        points.push(point);
        i = i + 1;
    }
    Operating { timing, equal_interval, model, delay, removal, presentation, points }
}

/// The section on frame sizes, as parsed.
struct Sizes {
    width_bits: u32,
    height_bits: u32,
    max_width: u32,
    max_height: u32,
    ids_present: bool,
    delta_length: u32,
    additional_length: u32,
}

impl Sizes {
    spec fn model(&self) -> SizeModel {
        SizeModel {
            size_bits: (self.width_bits as int, self.height_bits as int),
            max_size: (self.max_width as int, self.max_height as int),
            frame_ids: (self.ids_present, self.delta_length as int, self.additional_length as int),
        }
    }
}

/// The section on frame sizes.
fn parse_sizes(r: &mut Cursor<'_>, reduced: bool) -> (res: Sizes)
    requires
        old(r).wf(),
    ensures
        final(r).moved(old(r), size_at(old(r).bytes(), old(r).at(), reduced).1),
        res.model() == size_at(old(r).bytes(), old(r).at(), reduced).0,
        1 <= res.width_bits <= 16,
        1 <= res.height_bits <= 16,
        1 <= res.max_width <= 65536,
        1 <= res.max_height <= 65536,
        res.delta_length <= 17,
        res.additional_length <= 8,
{
    proof {
        reveal(size_at);
        lemma_p2_values();
    }
    let width_bits = r.f(4) + 1;
    let height_bits = r.f(4) + 1;
    proof {
        lemma_p2_mono(width_bits as int, 16);
        lemma_p2_mono(height_bits as int, 16);
    }
    let max_width = r.f(width_bits) + 1;
    let max_height = r.f(height_bits) + 1;
    let ids_present = if reduced {
        false
    } else {
        r.flag()
    };
    let mut delta_length: u32 = 0;
    let mut additional_length: u32 = 0;
    if ids_present {
        delta_length = r.f(4) + 2;
        additional_length = r.f(3) + 1;
    }
    Sizes { width_bits, height_bits, max_width, max_height, ids_present, delta_length, additional_length }
}

/// The section of inter-prediction switches.
fn parse_tools(r: &mut Cursor<'_>, reduced: bool) -> (res: Tools)
    requires
        old(r).wf(),
    ensures
        final(r).moved(old(r), tools_at(old(r).bytes(), old(r).at(), reduced).1),
        res.model() == tools_at(old(r).bytes(), old(r).at(), reduced).0,
        res.hint_bits <= 8,
{
    proof {
        reveal(tools_at);
        lemma_p2_values();
    }
    if reduced {
        return Tools {
            interintra: false,
            masked: false,
            warped: false,
            dual: false,
            order_hint: false,
            jnt_comp: false,
            ref_mvs: false,
            screen_content: SELECT,
            integer_mv: SELECT,
            hint_bits: 0,
        };
    }
    let interintra = r.flag();
    let masked = r.flag();
    let warped = r.flag();
    let dual = r.flag();
    let order_hint = r.flag();
    let jnt_comp = if order_hint {
        r.flag()
    } else {
        false
    };
    let ref_mvs = if order_hint {
        r.flag()
    } else {
        false
    };
    let choose_screen_content_tools = r.flag();
    let screen_content: u8 = if choose_screen_content_tools {
        SELECT
    } else {
        r.f(1) as u8
    };
    let choose_integer_mv = if screen_content > 0 {
        r.flag()
    } else {
        true
    };
    let integer_mv: u8 = if choose_integer_mv {
        SELECT
    } else {
        r.f(1) as u8
    };
    let hint_bits: u32 = if order_hint {
        r.f(3) + 1
    } else {
        0
    };
    Tools {
        interintra,
        masked,
        warped,
        dual,
        order_hint,
        jnt_comp,
        ref_mvs,
        screen_content,
        integer_mv,
        hint_bits,
    }
}

/// The colour configuration.
fn parse_color_config(r: &mut Cursor<'_>, seq_profile: u8) -> (res: ColorConfig)
    requires
        old(r).wf(),
        seq_profile <= 2,
    ensures
        final(r).moved(old(r), color_at(old(r).bytes(), old(r).at(), seq_profile as int).1),
        res == color_at(old(r).bytes(), old(r).at(), seq_profile as int).0,
        res.bit_depth == 8 || res.bit_depth == 10 || res.bit_depth == 12,
        res.num_planes == 1 || res.num_planes == 3,
{
    proof {
        reveal(color_at);
        lemma_p2_values();
    }
    let high_bitdepth = r.flag();
    let bit_depth: u8 = if seq_profile == 2 && high_bitdepth {
        if r.flag() {
            12
        } else {
            10
        }
    } else if high_bitdepth {
        10
    } else {
        8
    };
    let mono_chrome = if seq_profile == 1 {
        false
    } else {
        r.flag()
    };
    let num_planes: u8 = if mono_chrome {
        1
    } else {
        3
    };
    let color_description_present = r.flag();
    let mut color_primaries = CP_UNSPECIFIED;
    let mut transfer_characteristics = TC_UNSPECIFIED;
    let mut matrix_coefficients = MC_UNSPECIFIED;
    if color_description_present {
        color_primaries = r.f(8) as u8;
        transfer_characteristics = r.f(8) as u8;
        matrix_coefficients = r.f(8) as u8;
    }
    if mono_chrome {
        let color_range = r.flag();
        return ColorConfig {
            bit_depth,
            mono_chrome,
            num_planes,
            color_primaries,
            transfer_characteristics,
            matrix_coefficients,
            color_range,
            subsampling_x: 1,
            subsampling_y: 1,
            chroma_sample_position: 0,
            separate_uv_delta_q: false,
        };
    }
    let color_range;
    let subsampling_x: u8;
    let subsampling_y: u8;
    if color_primaries == CP_BT_709 && transfer_characteristics == TC_SRGB && matrix_coefficients
        == MC_IDENTITY {
        color_range = true;
        subsampling_x = 0;
        subsampling_y = 0;
    } else {
        color_range = r.flag();
        if seq_profile == 0 {
            subsampling_x = 1;
            subsampling_y = 1;
        } else if seq_profile == 1 {
            subsampling_x = 0;
            subsampling_y = 0;
        } else if bit_depth == 12 {
            subsampling_x = r.f(1) as u8;
            subsampling_y = if subsampling_x != 0 {
                r.f(1) as u8
            } else {
                0
            };
        } else {
            subsampling_x = 1;
            subsampling_y = 0;
        }
    }
    let chroma_sample_position = if subsampling_x == 1 && subsampling_y == 1 {
        r.f(2) as u8
    } else {
        0
    };
    let separate_uv_delta_q = r.flag();
    ColorConfig {
        bit_depth,
        mono_chrome,
        num_planes,
        color_primaries,
        transfer_characteristics,
        matrix_coefficients,
        color_range,
        subsampling_x,
        subsampling_y,
        chroma_sample_position,
        separate_uv_delta_q,
    }
}

/// The words of bits from `pos` on that are no sequence header.
pub open spec fn sequence_fault(data: Seq<u8>, pos: int) -> Seq<char> {
    if sequence_at(data, pos).0.profile > 2 && pos + 3 <= 8 * data.len() {
        "AV1 seq_profile above 2 is not a defined profile"@
    } else {
        ended()
    }
}

impl SequenceHeader {
    /// Parse a sequence header. An undefined profile is an error, as is a header
    /// that runs past the data.
    pub fn parse(r: &mut BitReader<'_>) -> (res: Outcome<Self>)
        requires
            old(r).wf(),
        ensures
            final(r).bytes() == old(r).bytes(),
            final(r).wf(),
            res is Ok <==> {
                &&& sequence_at(old(r).bytes(), old(r).at()).0.profile <= 2
                &&& sequence_at(old(r).bytes(), old(r).at()).1 <= old(r).total()
            },
            res is Ok ==> {
                &&& res->Ok_0.model() == sequence_at(old(r).bytes(), old(r).at()).0
                &&& res->Ok_0.wf()
                &&& final(r).at() == sequence_at(old(r).bytes(), old(r).at()).1
            },
            res is Err ==> res->Err_0.kind() == ErrorCode::Malformed && final(r).at() == if sequence_at(
                old(r).bytes(),
                old(r).at(),
            ).0.profile > 2 {
                min(old(r).at() + 3, old(r).total())
            } else {
                old(r).total()
            },
            res is Err ==> res->Err_0.words() == sequence_fault(old(r).bytes(), old(r).at()),
    {
        let mut c = r.cursor();
        proof {
            lemma_p2_values();
        }
        let seq_profile = c.f(3) as u8;
        if seq_profile > 2 {
            r.commit(&c)?;
            return Err(PixelsError::malformed("AV1 seq_profile above 2 is not a defined profile"));
        }
        let header = SequenceHeader::parse_fields(&mut c, seq_profile);
        r.commit(&c)?;
        Ok(header)
    }

    /// Everything after the profile.
    fn parse_fields(r: &mut Cursor<'_>, seq_profile: u8) -> (res: Self)
        requires
            old(r).wf(),
            old(r).at() >= 3,
            seq_profile == bits(old(r).bytes(), old(r).at() - 3, 3),
            seq_profile <= 2,
        ensures
            final(r).moved(old(r), sequence_at(old(r).bytes(), old(r).at() - 3).1),
            res.model() == sequence_at(old(r).bytes(), old(r).at() - 3).0,
            res.wf(),
    {
        let ghost data = r.bytes();
        let ghost start = r.at() - 3;
        let ghost m = sequence_at(data, start).0;
        let still_picture = r.flag();
        let reduced = r.flag();
        assert(m.still == still_picture);
        assert(m.reduced == reduced);
        let operating = parse_operating(r, reduced);
        assert(m.operating == operating.model());
        let sizes = parse_sizes(r, reduced);
        assert(m.size == sizes.model());
        let use_128x128_superblock = r.flag();
        let enable_filter_intra = r.flag();
        let enable_intra_edge_filter = r.flag();
        assert(m.edge_filter == enable_intra_edge_filter);
        let tools = parse_tools(r, reduced);
        assert(m.tools == tools.model());
        let enable_superres = r.flag();
        let enable_cdef = r.flag();
        let enable_restoration = r.flag();
        let color = parse_color_config(r, seq_profile);
        assert(m.color == color);
        let film_grain_params_present = r.flag();
        let operating_point_idc = operating.points[0].idc;
        SequenceHeader {
            seq_profile,
            still_picture,
            reduced_still_picture_header: reduced,
            operating_points: operating.points,
            operating_point_idc,
            frame_width_bits: sizes.width_bits,
            frame_height_bits: sizes.height_bits,
            max_frame_width: sizes.max_width,
            max_frame_height: sizes.max_height,
            frame_id_numbers_present: sizes.ids_present,
            delta_frame_id_length: sizes.delta_length,
            additional_frame_id_length: sizes.additional_length,
            use_128x128_superblock,
            enable_filter_intra,
            enable_intra_edge_filter,
            enable_interintra_compound: tools.interintra,
            enable_masked_compound: tools.masked,
            enable_warped_motion: tools.warped,
            enable_dual_filter: tools.dual,
            enable_order_hint: tools.order_hint,
            enable_jnt_comp: tools.jnt_comp,
            enable_ref_frame_mvs: tools.ref_mvs,
            seq_force_screen_content_tools: tools.screen_content,
            seq_force_integer_mv: tools.integer_mv,
            order_hint_bits: tools.hint_bits,
            enable_superres,
            enable_cdef,
            enable_restoration,
            color,
            film_grain_params_present,
            decoder_model_info_present: operating.model,
            buffer_delay_length: operating.delay,
            buffer_removal_time_length: operating.removal,
            frame_presentation_time_length: operating.presentation,
            equal_picture_interval: operating.equal_interval,
            timing_info_present: operating.timing,
        }
    }
}

} // verus!
