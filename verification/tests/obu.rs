//! The units of an AV1 stream.
use otf_pixels_codecs::av1::obu::{Obu, ObuType};
use otf_pixels_codecs::error::ErrorCode;

/// Build a low-overhead OBU: header byte with the size-field flag set,
/// a single-byte leb128 length, then the payload.
fn sized_obu(kind: u8, payload: &[u8]) -> Vec<u8> {
    let mut out = Vec::new();
    // forbidden=0, type=kind, ext=0, has_size=1, reserved=0
    let header = (kind << 3) | 0b0000_0010;
    out.push(header);
    assert!(payload.len() < 128, "test payloads stay single-byte leb128");
    out.push(payload.len() as u8);
    out.extend_from_slice(payload);
    out
}

#[test]
fn splits_a_stream_into_sized_obus() {
    let mut stream = sized_obu(2, &[]); // temporal delimiter
    stream.extend(sized_obu(1, &[0xAA, 0xBB])); // sequence header
    stream.extend(sized_obu(6, &[0xCC])); // frame

    let obus = Obu::parse_stream(&stream).unwrap();
    assert_eq!(obus.len(), 3);
    assert_eq!(obus[0].header.kind, ObuType::TemporalDelimiter);
    assert_eq!(obus[0].payload, &[] as &[u8]);
    assert_eq!(obus[1].header.kind, ObuType::SequenceHeader);
    assert_eq!(obus[1].payload, &[0xAA, 0xBB]);
    assert_eq!(obus[2].header.kind, ObuType::Frame);
    assert_eq!(obus[2].payload, &[0xCC]);
}

#[test]
fn reads_the_extension_header_ids() {
    // forbidden=0 type=1 ext=1 has_size=1 reserved=0 -> 0b0_0001_1_1_0
    let mut stream = vec![0b0000_1110];
    // extension byte: temporal_id=3 (011) spatial_id=2 (10) reserved=0(000)
    stream.push(0b011_10_000);
    stream.push(0x01); // leb128 size = 1
    stream.push(0x55); // payload
    let obus = Obu::parse_stream(&stream).unwrap();
    assert_eq!(obus.len(), 1);
    assert_eq!(obus[0].header.temporal_id, 3);
    assert_eq!(obus[0].header.spatial_id, 2);
    assert_eq!(obus[0].payload, &[0x55]);
}

#[test]
fn a_sizeless_final_obu_takes_the_rest_of_the_buffer() {
    // header: type=6 ext=0 has_size=0 -> 0b0_0110_0_0_0
    let mut stream = vec![0b0011_0000];
    stream.extend_from_slice(&[1, 2, 3, 4]);
    let obus = Obu::parse_stream(&stream).unwrap();
    assert_eq!(obus.len(), 1);
    assert_eq!(obus[0].header.kind, ObuType::Frame);
    assert_eq!(obus[0].payload, &[1, 2, 3, 4]);
}

#[test]
fn a_size_past_the_buffer_is_rejected() {
    // has_size=1, size=200, but only a few bytes follow.
    let stream = vec![0b0011_0010, 200, 1, 2, 3];
    let err = Obu::parse_stream(&stream).unwrap_err();
    assert_eq!(err.code(), ErrorCode::Malformed);
}

#[test]
fn a_set_forbidden_bit_is_rejected() {
    let stream = vec![0b1011_0010, 0x00];
    let err = Obu::parse_stream(&stream).unwrap_err();
    assert_eq!(err.code(), ErrorCode::Malformed);
}

#[test]
fn an_unknown_type_is_carried_through_not_rejected() {
    let stream = sized_obu(9, &[0x01]);
    let obus = Obu::parse_stream(&stream).unwrap();
    assert_eq!(obus[0].header.kind, ObuType::Reserved(9));
}
