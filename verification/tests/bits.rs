//! The bit reader.
use otf_pixels_codecs::av1::bits::{floor_log2, BitReader};
use otf_pixels_codecs::error::ErrorCode;

#[test]
fn f_reads_most_significant_bit_first() {
    // 0b1011_0010, 0b0100_0000
    let data = [0xB2, 0x40];
    let mut r = BitReader::new(&data);
    assert_eq!(r.f(3).unwrap(), 0b101);
    assert_eq!(r.f(5).unwrap(), 0b10010);
    assert_eq!(r.f(2).unwrap(), 0b01);
    assert_eq!(r.bit_position(), 10);
}

#[test]
fn f_of_zero_reads_nothing() {
    let data = [0xFF];
    let mut r = BitReader::new(&data);
    assert_eq!(r.f(0).unwrap(), 0);
    assert_eq!(r.bit_position(), 0);
}

#[test]
fn reading_past_the_end_is_an_error_not_a_panic() {
    let data = [0xFF];
    let mut r = BitReader::new(&data);
    assert_eq!(r.f(8).unwrap(), 0xFF);
    let err = r.f(1).unwrap_err();
    assert_eq!(err.code(), ErrorCode::Malformed);
}

#[test]
fn uvlc_decodes_the_exponential_golomb_shape() {
    // 1                -> 0
    // 010              -> 1
    // 011              -> 2
    // 00100            -> 3
    // Pack: 1 010 011 00100 = 1010_0110_0100_...
    let data = [0b1010_0110, 0b0100_0000];
    let mut r = BitReader::new(&data);
    assert_eq!(r.uvlc().unwrap(), 0);
    assert_eq!(r.uvlc().unwrap(), 1);
    assert_eq!(r.uvlc().unwrap(), 2);
    assert_eq!(r.uvlc().unwrap(), 3);
}

#[test]
fn uvlc_saturates_at_thirty_two_leading_zeros() {
    // 32 zero bits with no terminating one: four zero bytes, then more.
    let data = [0x00, 0x00, 0x00, 0x00, 0x80];
    let mut r = BitReader::new(&data);
    assert_eq!(r.uvlc().unwrap(), u32::MAX);
}

#[test]
fn leb128_reads_little_endian_base_128() {
    // 0xE5 0x8E 0x26 -> 624485, the canonical LEB128 example.
    let data = [0xE5, 0x8E, 0x26];
    let mut r = BitReader::new(&data);
    assert_eq!(r.leb128().unwrap(), 624_485);
    assert_eq!(r.byte_position(), 3);
}

#[test]
fn leb128_rejects_a_ninth_continuation_byte() {
    let data = [0x80, 0x80, 0x80, 0x80, 0x80, 0x80, 0x80, 0x80, 0x80];
    let mut r = BitReader::new(&data);
    let err = r.leb128().unwrap_err();
    assert_eq!(err.code(), ErrorCode::Malformed);
}

#[test]
fn le_reads_little_endian_bytes() {
    let data = [0x34, 0x12];
    let mut r = BitReader::new(&data);
    assert_eq!(r.le(2).unwrap(), 0x1234);
}

#[test]
fn su_recovers_negative_values() {
    // su(3) reads 4 bits. 0b1111 -> -1; 0b0111 -> 7; 0b1000 -> -8.
    let data = [0b1111_0111, 0b1000_0000];
    let mut r = BitReader::new(&data);
    assert_eq!(r.su(3).unwrap(), -1);
    assert_eq!(r.su(3).unwrap(), 7);
    assert_eq!(r.su(3).unwrap(), -8);
}

#[test]
fn ns_uses_one_fewer_bit_for_the_low_half() {
    // n = 3: w = 2, m = 1. v = f(1); v<1 -> value v; else read one more.
    // Bits 0 -> 0. Bits 10 -> (1<<1)-1+0 = 1. Bits 11 -> (1<<1)-1+1 = 2.
    let data = [0b0_10_11_000];
    let mut r = BitReader::new(&data);
    assert_eq!(r.ns(3).unwrap(), 0);
    assert_eq!(r.ns(3).unwrap(), 1);
    assert_eq!(r.ns(3).unwrap(), 2);
}

#[test]
fn ns_of_a_power_of_two_is_plain_fixed_width() {
    // n = 4: w = 2, m = 0, so every value is read in 2 bits.
    let data = [0b00_01_10_11];
    let mut r = BitReader::new(&data);
    assert_eq!(r.ns(4).unwrap(), 0);
    assert_eq!(r.ns(4).unwrap(), 1);
    assert_eq!(r.ns(4).unwrap(), 2);
    assert_eq!(r.ns(4).unwrap(), 3);
}

#[test]
fn byte_alignment_requires_zero_padding() {
    let mut r = BitReader::new(&[0b101_00000]);
    assert_eq!(r.f(3).unwrap(), 0b101);
    r.byte_alignment().unwrap();
    assert!(r.is_byte_aligned());
    assert_eq!(r.byte_position(), 1);

    let mut bad = BitReader::new(&[0b101_00001]);
    assert_eq!(bad.f(3).unwrap(), 0b101);
    assert_eq!(
        bad.byte_alignment().unwrap_err().code(),
        ErrorCode::Malformed
    );
}

#[test]
fn floor_log2_is_the_top_set_bit() {
    assert_eq!(floor_log2(1), 0);
    assert_eq!(floor_log2(2), 1);
    assert_eq!(floor_log2(3), 1);
    assert_eq!(floor_log2(255), 7);
    assert_eq!(floor_log2(256), 8);
}

#[test]
fn skipped_bits_are_not_read() {
    let data = [0b1010_0110, 0b0100_0000];
    let mut r = BitReader::new(&data);
    r.skip_bits(5).unwrap();
    assert_eq!(r.bit_position(), 5);
    assert_eq!(r.f(5).unwrap(), 0b11001);
    let err = r.skip_bits(7).unwrap_err();
    assert_eq!(err.code(), ErrorCode::Malformed);
    assert_eq!(r.bit_position(), 10);
    r.skip_bits(6).unwrap();
    assert_eq!(r.bit_position(), 16);
}

#[test]
fn a_failed_read_says_where_it_stopped() {
    let data = [0x80; 9];
    let mut r = BitReader::new(&data);
    assert!(r.leb128().is_err());
    assert_eq!(r.bit_position(), 64);
    let mut r = BitReader::new(&data[..2]);
    assert!(r.leb128().is_err());
    assert_eq!(r.bit_position(), 16);
    let mut r = BitReader::new(&[0b1001_0000]);
    r.skip_bits(1).unwrap();
    assert!(r.byte_alignment().is_err());
    assert_eq!(r.bit_position(), 4);
}

#[test]
fn the_widest_signed_value_is_read() {
    let data = [0xFF, 0xFF, 0xFF, 0xFF, 0x80, 0, 0, 0, 0x7F, 0xFF, 0xFF, 0xFF];
    let mut r = BitReader::new(&data);
    assert_eq!(r.su(31).unwrap(), -1);
    assert_eq!(r.su(31).unwrap(), i32::MIN);
    assert_eq!(r.su(31).unwrap(), i32::MAX);
    assert_eq!(r.su(32).unwrap_err().code(), ErrorCode::Malformed);
    assert_eq!(r.bit_position() + r.bits_left(), r.bit_len());
}
