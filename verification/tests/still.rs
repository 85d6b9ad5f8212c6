//! The headers of a still picture.
use otf_pixels_codecs::av1::still::{sequence_header_from_config, StillPicture};

/// Bit-level builder shared in shape with the seq/frame tests.
struct Bldr {
    bits: Vec<u8>,
}
impl Bldr {
    fn new() -> Self {
        Self { bits: Vec::new() }
    }
    fn put(&mut self, value: u32, n: u32) -> &mut Self {
        for i in (0..n).rev() {
            self.bits.push(((value >> i) & 1) as u8);
        }
        self
    }
    fn flag(&mut self, b: bool) -> &mut Self {
        self.put(u32::from(b), 1)
    }
    fn pack(&self) -> Vec<u8> {
        let mut out = vec![0_u8; self.bits.len().div_ceil(8)];
        for (i, &bit) in self.bits.iter().enumerate() {
            if bit != 0 {
                out[i / 8] |= 1 << (7 - (i % 8));
            }
        }
        out
    }
}

/// Wrap payload bytes in a low-overhead OBU of the given type.
fn obu(kind: u8, payload: &[u8]) -> Vec<u8> {
    let mut out = vec![(kind << 3) | 0b0000_0010];
    assert!(payload.len() < 128);
    out.push(payload.len() as u8);
    out.extend_from_slice(payload);
    out
}

/// The reduced-still-picture sequence header bytes for 8-bit 4:2:0.
fn seq_bytes(width: u32, height: u32) -> Vec<u8> {
    let mut b = Bldr::new();
    b.put(0, 3).flag(true).flag(true).put(1, 5);
    b.put(15, 4).put(15, 4).put(width - 1, 16).put(height - 1, 16);
    b.flag(false).flag(false).flag(false);
    b.flag(false).flag(false).flag(false);
    b.flag(false).flag(false).flag(false);
    b.flag(false).put(0, 2).flag(false);
    b.flag(false);
    b.pack()
}

/// The uncompressed header bytes for the reduced-still key frame used above,
/// followed by whatever trailing tile bytes the caller wants.
fn frame_bytes(tile: &[u8]) -> Vec<u8> {
    let mut b = Bldr::new();
    b.flag(false); // disable_cdf_update
    b.flag(false); // allow_screen_content_tools
    b.flag(false); // render_and_frame_size_different
    b.flag(true); // uniform_tile_spacing
    b.put(100, 8); // base_q_idx
    b.flag(false).flag(false).flag(false).flag(false); // deltas + qmatrix
    b.flag(false); // segmentation_enabled
    b.flag(false); // delta_q_present
    b.put(0, 6).put(0, 6).put(0, 3).flag(false); // loop filter
    b.flag(false); // tx_mode_select -> Largest
    b.flag(false); // reduced_tx_set
    let mut bytes = b.pack();
    // The header is byte-aligned by construction here (its bit count is a
    // multiple of 8 after packing rounds up); append the tile payload.
    bytes.extend_from_slice(tile);
    bytes
}

#[test]
fn parses_config_and_frame_into_headers_and_tile_locator() {
    let config = obu(1, &seq_bytes(64, 64)); // OBU_SEQUENCE_HEADER
    let tile = [0xDE, 0xAD, 0xBE, 0xEF];
    let frame_payload = frame_bytes(&tile);
    let frame_stream = obu(6, &frame_payload); // OBU_FRAME

    let still = StillPicture::parse(&config, &frame_stream).unwrap();
    assert_eq!(still.sequence.max_frame_width, 64);
    assert_eq!(still.frame.frame_width, 64);
    assert_eq!(still.frame.quantization.base_q_idx, 100);
    assert_eq!(still.frame.tile_info.count(), 1);
    // The tile locator points at the trailing bytes of the OBU_FRAME.
    let located = &frame_stream[still.tile_data_offset..][..still.tile_data_len];
    assert_eq!(located, &tile);
}

#[test]
fn a_separate_frame_header_and_tile_group_are_joined() {
    let config = obu(1, &seq_bytes(32, 32));
    let header_only = frame_bytes(&[]);
    let mut stream = obu(3, &header_only); // OBU_FRAME_HEADER
    let tile = [1, 2, 3];
    stream.extend(obu(4, &tile)); // OBU_TILE_GROUP

    let still = StillPicture::parse(&config, &stream).unwrap();
    assert_eq!(still.frame.frame_width, 32);
    let located = &stream[still.tile_data_offset..][..still.tile_data_len];
    assert_eq!(located, &tile);
}

#[test]
fn an_in_band_sequence_header_overrides_the_config_one() {
    // Config says 64x64; the frame stream carries a 40x40 sequence header
    // ahead of the frame, which must win.
    let config = obu(1, &seq_bytes(64, 64));
    let mut stream = obu(1, &seq_bytes(40, 40));
    stream.extend(obu(6, &frame_bytes(&[0x00])));
    let still = StillPicture::parse(&config, &stream).unwrap();
    assert_eq!(still.sequence.max_frame_width, 40);
    assert_eq!(still.frame.frame_width, 40);
}

#[test]
fn a_frame_with_no_sequence_header_anywhere_is_rejected() {
    let stream = obu(6, &frame_bytes(&[0x00]));
    let err = StillPicture::parse(&[], &stream).unwrap_err();
    assert!(err.to_string().contains("sequence header"), "{}", err.to_string());
}

#[test]
fn config_without_a_sequence_header_is_reported() {
    let config = obu(2, &[]); // a temporal delimiter, no seq header
    let err = sequence_header_from_config(&config).unwrap_err();
    assert!(err.to_string().contains("no sequence header"), "{}", err.to_string());
}

#[test]
fn a_picture_without_its_headers_says_which_is_missing() {
    let said = |config: &[u8], data: &[u8]| StillPicture::parse(config, data).err().unwrap().to_string();
    assert_eq!(said(&[], &[]), "a frame header was reached before any sequence header");
    let sequence = obu(1, &seq_bytes(8, 8));
    assert_eq!(said(&sequence, &[]), "the coded frame contains no frame header");
    assert_eq!(said(&sequence, &[0x80]), "an AV1 OBU forbidden bit was set");
    assert_eq!(said(&sequence, &[0x32, 5, 0]), "an AV1 OBU declares more bytes than the stream holds");
    assert_eq!(said(&sequence, &obu(6, &[])), "the AV1 bitstream ended in the middle of a value");
    assert_eq!(said(&sequence, &obu(1, &[0xFF; 4])), "AV1 seq_profile above 2 is not a defined profile");
}
