//! Frame headers.
use otf_pixels_codecs::av1::bits::BitReader;
use otf_pixels_codecs::av1::frame::{tile_log2, FrameHeader, TxMode, KEY_FRAME};
use otf_pixels_codecs::av1::seq::SequenceHeader;
use otf_pixels_codecs::error::ErrorCode;

struct Bldr {
    bits: Vec<u8>,
}
impl Bldr {
    fn new() -> Self {
        Self { bits: Vec::new() }
    }
    fn put(&mut self, value: u32, n: u32) -> &mut Self {
        for i in (0..n).rev() {
            self.bits.push(((value >> i) & 1) as u8);
        }
        self
    }
    fn flag(&mut self, b: bool) -> &mut Self {
        self.put(u32::from(b), 1)
    }
    fn pack(&self) -> Vec<u8> {
        let mut out = vec![0_u8; self.bits.len().div_ceil(8)];
        for (i, &bit) in self.bits.iter().enumerate() {
            if bit != 0 {
                out[i / 8] |= 1 << (7 - (i % 8));
            }
        }
        out
    }
}

/// A reduced-still-picture sequence header for an 8-bit 4:2:0 image, with
/// CDEF and restoration disabled so the frame header stays compact.
fn seq_reduced(width: u32, height: u32) -> SequenceHeader {
    let mut b = Bldr::new();
    b.put(0, 3).flag(true).flag(true).put(1, 5);
    b.put(15, 4)
        .put(15, 4)
        .put(width - 1, 16)
        .put(height - 1, 16);
    b.flag(false).flag(false).flag(false); // sb / filter-intra / edge
    b.flag(false).flag(false).flag(false); // superres / cdef / restoration
    b.flag(false).flag(false).flag(false); // hbd / mono / colordesc
    b.flag(false).put(0, 2).flag(false); // range / chroma pos / uv delta q
    b.flag(false); // film grain
    let bytes = b.pack();
    let mut r = BitReader::new(&bytes);
    SequenceHeader::parse(&mut r).unwrap()
}

#[test]
fn parses_a_key_frame_header() {
    let seq = seq_reduced(64, 64);
    // Reduced header: frame_type/show/error implied. First read is
    // disable_cdf_update, then (force_screen_content_tools == SELECT) so
    // allow_screen_content_tools f(1), then force_integer_mv only if sct.
    let mut b = Bldr::new();
    b.flag(false); // disable_cdf_update
    b.flag(false); // allow_screen_content_tools = 0
    // frame_size_override = 0 (reduced), order_hint 0 bits, refresh all.
    // frame_size: enable_superres=0 so no bit. render_size:
    b.flag(false); // render_and_frame_size_different = 0
    // allow_intrabc gated off (sct=0). disable_frame_end_update_cdf implied.
    // tile_info: 64x64 -> 16x16 mi -> 1 superblock. uniform_tile_spacing:
    b.flag(true); // uniform_tile_spacing
    // min==max log2 cols/rows == 0, so no increment bits, no ids.
    // quantization: base_q_idx f(8) = 100.
    b.put(100, 8);
    b.flag(false); // delta_q_y_dc coded = 0
    b.flag(false); // diff not read (separate_uv=0) -> u_dc coded
    b.flag(false); // u_ac coded = 0
    b.flag(false); // using_qmatrix = 0
    // segmentation:
    b.flag(false); // segmentation_enabled = 0
    // delta_q: base>0 so delta_q_present f(1)
    b.flag(false); // delta_q_present = 0
    // delta_lf gated by delta_q_present=0 -> nothing.
    // loop_filter (not lossless, not intrabc): level[0] f(6), level[1] f(6)
    b.put(0, 6).put(0, 6); // both 0 -> chroma levels skipped
    b.put(0, 3); // sharpness
    b.flag(false); // delta_enabled = 0
    // cdef disabled in seq -> nothing. lr disabled -> nothing.
    // tx_mode: not lossless -> tx_mode_select f(1)
    b.flag(false); // tx_mode_select = 0 -> Largest
    // reference/skip/warp: nothing. reduced_tx_set f(1):
    b.flag(false);
    // film grain not present -> nothing.
    let bytes = b.pack();
    let mut r = BitReader::new(&bytes);
    let fh = FrameHeader::parse(&mut r, &seq, 0, 0).unwrap();
    assert_eq!(fh.frame_type, KEY_FRAME);
    assert!(fh.show_frame);
    assert_eq!(fh.frame_width, 64);
    assert_eq!(fh.frame_height, 64);
    assert_eq!(fh.mi_cols, 16);
    assert_eq!(fh.mi_rows, 16);
    assert_eq!(fh.quantization.base_q_idx, 100);
    assert!(!fh.coded_lossless);
    assert_eq!(fh.tile_info.count(), 1);
    assert_eq!(fh.tx_mode, TxMode::Largest);
}

#[test]
fn a_zero_quantizer_is_coded_lossless_and_forces_only_4x4() {
    let seq = seq_reduced(32, 32);
    let mut b = Bldr::new();
    b.flag(false); // disable_cdf_update
    b.flag(false); // allow_screen_content_tools
    b.flag(false); // render size differ
    b.flag(true); // uniform tile spacing
    b.put(0, 8); // base_q_idx = 0 -> lossless
    b.flag(false); // delta_q_y_dc coded
    b.flag(false); // u_dc coded
    b.flag(false); // u_ac coded
    b.flag(false); // using_qmatrix
    b.flag(false); // segmentation_enabled
    // base_q_idx == 0 -> delta_q_present not read.
    // CodedLossless -> loop_filter reads nothing, cdef nothing, lr nothing.
    // tx_mode: CodedLossless -> Only4x4, no bit.
    b.flag(false); // reduced_tx_set
    let bytes = b.pack();
    let mut r = BitReader::new(&bytes);
    let fh = FrameHeader::parse(&mut r, &seq, 0, 0).unwrap();
    assert!(fh.coded_lossless);
    assert!(fh.all_lossless);
    assert_eq!(fh.tx_mode, TxMode::Only4x4);
    assert!(fh.lossless[0]);
}

#[test]
fn tile_log2_is_the_smallest_covering_shift() {
    assert_eq!(tile_log2(1, 1), 0);
    assert_eq!(tile_log2(1, 2), 1);
    assert_eq!(tile_log2(1, 3), 2);
    assert_eq!(tile_log2(1, 4), 2);
    assert_eq!(tile_log2(4, 16), 2);
}

/// A sequence header of the full form, for a picture of 64 by 64.
fn seq_full() -> SequenceHeader {
    let mut b = Bldr::new();
    b.put(0, 3).flag(false).flag(false); // profile, still, reduced
    b.flag(false).flag(false); // timing, initial display delay
    b.put(0, 5).put(0, 12).put(1, 5); // one operating point
    b.put(15, 4).put(15, 4).put(63, 16).put(63, 16);
    b.flag(false); // frame ids
    b.flag(false).flag(false).flag(false); // sb / filter-intra / edge
    b.flag(false).flag(false).flag(false).flag(false); // interintra / masked / warped / dual
    b.flag(false); // order hint
    b.flag(true).flag(true); // choose screen content tools / integer mv
    b.flag(false).flag(false).flag(false); // superres / cdef / restoration
    b.flag(false).flag(false).flag(false); // hbd / mono / colordesc
    b.flag(false).put(0, 2).flag(false).flag(false);
    let bytes = b.pack();
    SequenceHeader::parse(&mut BitReader::new(&bytes)).unwrap()
}

#[test]
fn inter_frames_and_shown_existing_frames_are_unsupported() {
    let seq = seq_full();
    let mut existing = Bldr::new();
    existing.flag(true).put(0, 15);
    let bytes = existing.pack();
    let err = FrameHeader::parse(&mut BitReader::new(&bytes), &seq, 0, 0).unwrap_err();
    assert_eq!(err.code(), ErrorCode::Unsupported);

    let mut inter = Bldr::new();
    inter.flag(false).put(1, 2).flag(true).put(0, 12);
    let bytes = inter.pack();
    let err = FrameHeader::parse(&mut BitReader::new(&bytes), &seq, 0, 0).unwrap_err();
    assert_eq!(err.code(), ErrorCode::Unsupported);
}

#[test]
fn a_header_that_ends_early_is_malformed() {
    let seq = seq_reduced(64, 64);
    let err = FrameHeader::parse(&mut BitReader::new(&[0x10]), &seq, 0, 0).unwrap_err();
    assert_eq!(err.code(), ErrorCode::Malformed);
}
