//! Sequence headers.
use otf_pixels_codecs::av1::bits::BitReader;
use otf_pixels_codecs::av1::seq::{SequenceHeader, CP_BT_709, MC_IDENTITY, SELECT, TC_SRGB};

/// A minimal reduced still-picture sequence header, assembled bit by bit so
/// the test reads as the syntax does. Returns the packed bytes.
struct SeqBuilder {
    bits: Vec<u8>,
}
impl SeqBuilder {
    fn new() -> Self {
        Self { bits: Vec::new() }
    }
    fn put(&mut self, value: u32, n: u32) -> &mut Self {
        for i in (0..n).rev() {
            self.bits.push(((value >> i) & 1) as u8);
        }
        self
    }
    fn pack(&self) -> Vec<u8> {
        let mut out = vec![0_u8; self.bits.len().div_ceil(8)];
        for (i, &bit) in self.bits.iter().enumerate() {
            if bit != 0 {
                out[i / 8] |= 1 << (7 - (i % 8));
            }
        }
        out
    }
}

/// Build the common reduced-still-picture header for an 8-bit 4:2:0 image
/// of the given size, with no colour description.
fn reduced_still(width: u32, height: u32) -> Vec<u8> {
    let mut b = SeqBuilder::new();
    b.put(0, 3); // seq_profile = 0
    b.put(1, 1); // still_picture = 1
    b.put(1, 1); // reduced_still_picture_header = 1
    b.put(1, 5); // seq_level_idx[0]
    b.put(15, 4); // frame_width_bits_minus_1 = 15 -> 16 bits
    b.put(15, 4); // frame_height_bits_minus_1 = 15 -> 16 bits
    b.put(width - 1, 16); // max_frame_width_minus_1
    b.put(height - 1, 16); // max_frame_height_minus_1
    b.put(0, 1); // use_128x128_superblock = 0
    b.put(0, 1); // enable_filter_intra = 0
    b.put(0, 1); // enable_intra_edge_filter = 0
    b.put(0, 1); // enable_superres = 0
    b.put(0, 1); // enable_cdef = 0
    b.put(0, 1); // enable_restoration = 0
    // color_config: high_bitdepth=0, mono_chrome=0,
    // color_description_present=0, then (not sRGB path) color_range=0,
    // profile 0 -> 4:2:0, chroma_sample_position(2), separate_uv_delta_q=0
    b.put(0, 1); // high_bitdepth = 0 -> 8-bit
    b.put(0, 1); // mono_chrome = 0
    b.put(0, 1); // color_description_present = 0
    b.put(0, 1); // color_range = 0
    b.put(0, 2); // chroma_sample_position
    b.put(0, 1); // separate_uv_delta_q = 0
    b.put(0, 1); // film_grain_params_present = 0
    b.pack()
}

#[test]
fn parses_a_reduced_still_picture_header() {
    let bytes = reduced_still(320, 240);
    let mut r = BitReader::new(&bytes);
    let seq = SequenceHeader::parse(&mut r).unwrap();
    assert_eq!(seq.seq_profile, 0);
    assert!(seq.still_picture);
    assert!(seq.reduced_still_picture_header);
    assert_eq!(seq.max_frame_width, 320);
    assert_eq!(seq.max_frame_height, 240);
    assert_eq!(seq.color.bit_depth, 8);
    assert!(!seq.color.mono_chrome);
    assert_eq!(seq.color.subsampling_x, 1);
    assert_eq!(seq.color.subsampling_y, 1);
    assert_eq!(seq.operating_points.len(), 1);
    // Reduced header forces the inter tools to their off/select defaults.
    assert_eq!(seq.seq_force_screen_content_tools, SELECT);
    assert_eq!(seq.seq_force_integer_mv, SELECT);
    assert_eq!(seq.order_hint_bits, 0);
    assert!(!seq.enable_order_hint);
}

#[test]
fn monochrome_forces_a_single_plane_and_subsampling() {
    let mut b = SeqBuilder::new();
    b.put(0, 3).put(1, 1).put(1, 1).put(1, 5);
    b.put(7, 4).put(7, 4); // 8-bit dimension fields
    b.put(99, 8).put(49, 8); // 100 x 50
    b.put(0, 1).put(0, 1).put(0, 1); // sb / filter-intra / edge
    b.put(0, 1).put(0, 1).put(0, 1); // superres / cdef / restoration
    b.put(0, 1); // high_bitdepth
    b.put(1, 1); // mono_chrome = 1
    b.put(0, 1); // color_description_present = 0
    b.put(0, 1); // color_range
    b.put(0, 1); // film_grain_params_present
    let bytes = b.pack();
    let mut r = BitReader::new(&bytes);
    let seq = SequenceHeader::parse(&mut r).unwrap();
    assert!(seq.color.mono_chrome);
    assert_eq!(seq.color.num_planes, 1);
    assert_eq!(seq.color.subsampling_x, 1);
    assert_eq!(seq.color.subsampling_y, 1);
    assert_eq!(seq.max_frame_width, 100);
    assert_eq!(seq.max_frame_height, 50);
}

#[test]
fn the_srgb_identity_path_is_full_range_444() {
    let mut b = SeqBuilder::new();
    b.put(1, 3); // seq_profile = 1 (4:4:4 capable)
    b.put(1, 1).put(1, 1).put(1, 5);
    b.put(7, 4).put(7, 4).put(63, 8).put(63, 8); // 64 x 64
    b.put(0, 1).put(0, 1).put(0, 1);
    b.put(0, 1).put(0, 1).put(0, 1);
    b.put(0, 1); // high_bitdepth = 0
    // seq_profile == 1 -> mono_chrome not read
    b.put(1, 1); // color_description_present = 1
    b.put(CP_BT_709 as u32, 8);
    b.put(TC_SRGB as u32, 8);
    b.put(MC_IDENTITY as u32, 8);
    // sRGB identity path: color_range/subsampling not read;
    // subsampling is 0,0 so chroma_sample_position not read.
    b.put(0, 1); // separate_uv_delta_q
    b.put(0, 1); // film_grain_params_present
    let bytes = b.pack();
    let mut r = BitReader::new(&bytes);
    let seq = SequenceHeader::parse(&mut r).unwrap();
    assert_eq!(seq.color.subsampling_x, 0);
    assert_eq!(seq.color.subsampling_y, 0);
    assert!(seq.color.color_range);
    assert_eq!(seq.color.matrix_coefficients, MC_IDENTITY);
}

#[test]
fn a_profile_above_two_is_rejected() {
    let bytes = [0xE0]; // seq_profile = 7
    let mut r = BitReader::new(&bytes);
    assert!(SequenceHeader::parse(&mut r).is_err());
}
