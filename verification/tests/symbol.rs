//! The symbol decoder.
use otf_pixels_codecs::av1::symbol::SymbolDecoder;

/// A binary CDF: `cdf[0]` is P(symbol 0), then the mandatory `1<<15` and the
/// adaptation counter.
fn cdf_binary(c0: u16) -> [u16; 3] {
    [c0, 1 << 15, 0]
}

/// A genuine three-symbol CDF (two cumulative splits + counter).
fn cdf3(c0: u16, c1: u16) -> [u16; 4] {
    [c0, c1, 1 << 15, 0]
}

#[test]
fn init_state_matches_the_spec() {
    let data = [0xAB, 0xCD, 0xEF];
    let dec = SymbolDecoder::new(&data, false).unwrap();
    assert_eq!(dec.range(), 1 << 15);
    // numBits = min(24,15) = 15; buf = top 15 bits of 0xABCD. paddedBuf is
    // buf << (15 - 15) = buf.
    let padded_buf = u32::from(0xABCD_u16) >> 1;
    assert_eq!(dec.value(), ((1 << 15) - 1) ^ padded_buf);
    assert_eq!(dec.max_bits(), 8 * 3 - 15);
}

#[test]
fn a_tiny_buffer_starts_in_the_padding_region() {
    // One byte: only 8 real bits, so SymbolMaxBits is negative from the
    // start and renormalization reads no further real bits.
    let dec = SymbolDecoder::new(&[0x00], false).unwrap();
    assert_eq!(dec.max_bits(), 8 - 15);
}

#[test]
fn a_cdf_certain_of_the_first_symbol_decodes_it_when_the_value_is_high() {
    // An all-zero buffer makes init's SymbolValue = 0x7FFF ^ 0 = 0x7FFF,
    // which sits in the high interval. With cdf[0] = 32767 the low-value
    // sliver belongs to symbol 1, so a high value pins the result to 0, and
    // the all-zero stream keeps it there.
    let mut dec = SymbolDecoder::new(&[0x00; 6], true).unwrap();
    for _ in 0..8 {
        assert_eq!(dec.read_symbol(&mut cdf_binary(32767)).unwrap(), 0);
    }
}

#[test]
fn a_cdf_certain_of_the_last_symbol_decodes_it_when_the_value_is_low() {
    // An all-0xFF buffer makes init's SymbolValue = 0x7FFF ^ 0x7FFF = 0,
    // the lowest value. With cdf[0] = 1 almost the entire range belongs to
    // symbol 1, and value 0 lands squarely in it.
    let mut dec = SymbolDecoder::new(&[0xFF; 6], true).unwrap();
    for _ in 0..8 {
        assert_eq!(dec.read_symbol(&mut cdf_binary(1)).unwrap(), 1);
    }
}

#[test]
fn read_literal_composes_read_bool() {
    // read_literal(n) must equal n read_bool calls, MSB first, on the same
    // stream. Run each on its own decoder over identical data.
    let data = [0x3C, 0xA7, 0x91, 0x08, 0x55];
    let mut a = SymbolDecoder::new(&data, false).unwrap();
    let literal = a.read_literal(5).unwrap();

    let mut b = SymbolDecoder::new(&data, false).unwrap();
    let mut composed = 0;
    for _ in 0..5 {
        composed = 2 * composed + u32::from(b.read_bool().unwrap());
    }
    assert_eq!(literal, composed);
}

#[test]
fn decoding_is_deterministic_for_the_same_input() {
    let data = [0x9E, 0x42, 0x17, 0xCB, 0x30, 0x8A];
    let decode_all = || {
        let mut dec = SymbolDecoder::new(&data, false).unwrap();
        let mut out = Vec::new();
        for _ in 0..12 {
            out.push(dec.read_symbol(&mut cdf3(1 << 13, 3 << 13)).unwrap());
        }
        out
    };
    assert_eq!(decode_all(), decode_all());
}

#[test]
fn adaptation_moves_the_cdf_toward_the_decoded_symbol() {
    // A high initial value (zero buffer) decodes symbol 0 here; confirm
    // cdf[0] climbs toward 1<<15 as that symbol is reinforced.
    let data = [0x00, 0x00, 0x00, 0x00, 0x00, 0x00];
    let mut dec = SymbolDecoder::new(&data, false).unwrap();
    let mut cdf = cdf_binary(1 << 14);
    let before = cdf[0];
    let symbol = dec.read_symbol(&mut cdf).unwrap();
    assert_eq!(symbol, 0);
    // Seeing symbol 0 pushes cdf[0] upward (toward certainty of 0).
    assert!(cdf[0] > before, "{} !> {}", cdf[0], before);
    // The counter advanced.
    assert_eq!(cdf[2], 1);
}

#[test]
fn a_malformed_cdf_is_rejected_not_panicked() {
    let mut dec = SymbolDecoder::new(&[0x00, 0x11], false).unwrap();
    let mut too_short = [1_u16 << 15];
    assert!(dec.read_symbol(&mut too_short).is_err());
}

#[test]
fn a_frozen_decoder_leaves_its_distributions() {
    let mut dec = SymbolDecoder::new(&[0x12, 0x34, 0x56], true).unwrap();
    let mut cdf = cdf3(9000, 20000);
    dec.read_symbol(&mut cdf).unwrap();
    assert_eq!(cdf, cdf3(9000, 20000));
}

#[test]
fn a_distribution_may_have_many_symbols() {
    let mut cdf: Vec<u16> = (1..=100_u32).map(|k| (k * 32768 / 100) as u16).collect();
    cdf.push(0);
    let zeros = [0_u8; 4];
    let mut dec = SymbolDecoder::new(&zeros, true).unwrap();
    // The floor of ninety-nine symbols lifts the first interval past the value.
    assert_eq!(dec.read_symbol(&mut cdf).unwrap(), 1);
    let ones = [0xFF_u8; 4];
    let mut dec = SymbolDecoder::new(&ones, true).unwrap();
    assert_eq!(dec.read_symbol(&mut cdf).unwrap(), 99);
}
