//! The boxes of a file.
use otf_pixels_codecs::avif::boxes::{FourCc, Reader};
use otf_pixels_codecs::error::ErrorCode;

/// Build a box: 4-byte size, 4-byte type, payload.
fn boxed(kind: &[u8; 4], payload: &[u8]) -> Vec<u8> {
    let mut out = Vec::new();
    let total = u32::try_from(8 + payload.len()).unwrap();
    out.extend_from_slice(&total.to_be_bytes());
    out.extend_from_slice(kind);
    out.extend_from_slice(payload);
    out
}

#[test]
fn reads_a_flat_sequence_of_boxes() {
    let mut file = boxed(b"ftyp", b"avif0000");
    file.extend_from_slice(&boxed(b"mdat", &[1, 2, 3]));

    let mut reader = Reader::new(&file);
    let first = reader.next_box().unwrap().unwrap();
    assert_eq!(first.kind, FourCc::new(b"ftyp"));
    assert_eq!(first.payload_len, 8);
    assert_eq!(reader.payload(&first).rest(), b"avif0000");

    let second = reader.next_box().unwrap().unwrap();
    assert_eq!(second.kind, FourCc::new(b"mdat"));
    assert_eq!(reader.payload(&second).rest(), &[1, 2, 3]);

    assert!(reader.next_box().is_none());
}

#[test]
fn nested_boxes_are_bounded_by_their_parent() {
    let inner = boxed(b"hdlr", b"pict");
    let outer = boxed(b"meta", &inner);

    let mut reader = Reader::new(&outer);
    let meta = reader.next_box().unwrap().unwrap();
    let mut children = reader.payload(&meta);
    let hdlr = children.next_box().unwrap().unwrap();
    assert_eq!(hdlr.kind, FourCc::new(b"hdlr"));
    assert_eq!(children.payload(&hdlr).rest(), b"pict");
    assert!(children.next_box().is_none());
}

/// A box declaring less than its own header would leave the cursor where
/// it was and iterate forever. This is the single most important bound in
/// the module.
#[test]
fn a_box_smaller_than_its_header_is_rejected() {
    let mut file = Vec::new();
    file.extend_from_slice(&3_u32.to_be_bytes());
    file.extend_from_slice(b"junk");
    file.extend_from_slice(&[0; 16]);

    let mut reader = Reader::new(&file);
    let error = reader.next_box().unwrap().unwrap_err();
    assert_eq!(error.code(), ErrorCode::Malformed);
    assert!(error.to_string().contains("less than its own"), "{}", error.to_string());
}

#[test]
fn a_box_running_past_its_parent_is_rejected() {
    // Declares 400 bytes inside a file holding 16.
    let mut file = Vec::new();
    file.extend_from_slice(&400_u32.to_be_bytes());
    file.extend_from_slice(b"meta");
    file.extend_from_slice(&[0; 8]);

    let mut reader = Reader::new(&file);
    let error = reader.next_box().unwrap().unwrap_err();
    assert_eq!(error.code(), ErrorCode::Malformed);
    assert!(error.to_string().contains("past the end"), "{}", error.to_string());
}

#[test]
fn size_zero_runs_to_the_end_of_the_parent() {
    let mut file = Vec::new();
    file.extend_from_slice(&0_u32.to_be_bytes());
    file.extend_from_slice(b"mdat");
    file.extend_from_slice(&[7; 12]);

    let mut reader = Reader::new(&file);
    let header = reader.next_box().unwrap().unwrap();
    assert_eq!(header.payload_len, 12);
    assert_eq!(reader.payload(&header).rest(), &[7; 12]);
    assert!(reader.next_box().is_none());
}

#[test]
fn a_sixty_four_bit_size_is_honoured() {
    let mut file = Vec::new();
    file.extend_from_slice(&1_u32.to_be_bytes());
    file.extend_from_slice(b"mdat");
    file.extend_from_slice(&20_u64.to_be_bytes());
    file.extend_from_slice(&[9; 4]);

    let mut reader = Reader::new(&file);
    let header = reader.next_box().unwrap().unwrap();
    assert_eq!(header.payload_len, 4);
    assert_eq!(reader.payload(&header).rest(), &[9; 4]);
}

#[test]
fn a_uuid_box_accounts_for_its_user_type() {
    let mut payload = Vec::from([0xAB; 16]);
    payload.extend_from_slice(b"data");
    let file = boxed(b"uuid", &payload);

    let mut reader = Reader::new(&file);
    let header = reader.next_box().unwrap().unwrap();
    assert_eq!(header.kind, FourCc::new(b"uuid"));
    assert_eq!(reader.payload(&header).rest(), b"data");
}

#[test]
fn trailing_padding_ends_iteration_rather_than_failing() {
    let mut file = boxed(b"ftyp", b"avif");
    file.extend_from_slice(&[0, 0, 0]);

    let mut reader = Reader::new(&file);
    assert!(reader.next_box().unwrap().is_ok());
    assert!(reader.next_box().is_none());
}

#[test]
fn scalar_reads_are_bounded() {
    let file = [0x01, 0x02, 0x03];
    let mut reader = Reader::new(&file);
    assert_eq!(reader.u16().unwrap(), 0x0102);
    // One byte left, but a u32 wants four.
    let error = reader.u32().unwrap_err();
    assert_eq!(error.code(), ErrorCode::Malformed);
    // The failed read did not advance the cursor past the window.
    assert_eq!(reader.remaining(), 1);
}

#[test]
fn full_box_splits_version_from_flags() {
    let file = [0x01, 0x00, 0x00, 0x0F];
    let mut reader = Reader::new(&file);
    let (version, flags) = reader.full_box().unwrap();
    assert_eq!(version, 1);
    assert_eq!(flags, 0x0F);
}

#[test]
fn uint_honours_the_declared_width() {
    let file = [0x00, 0x00, 0x01, 0x00];
    let mut reader = Reader::new(&file);
    assert_eq!(reader.uint(0).unwrap(), 0);
    assert_eq!(reader.uint(4).unwrap(), 256);

    let mut reader = Reader::new(&file);
    let error = reader.uint(3).unwrap_err();
    assert_eq!(error.code(), ErrorCode::Malformed);
}

#[test]
fn cstring_stops_at_the_terminator_and_survives_a_missing_one() {
    let file = *b"alpha\0beta";
    let mut reader = Reader::new(&file);
    assert_eq!(reader.cstring().unwrap(), "alpha");
    // No terminator on the tail; it reads to the end of the window.
    assert_eq!(reader.cstring().unwrap(), "beta");
    assert!(reader.is_empty());
}

#[test]
fn a_window_outside_the_file_is_clamped_rather_than_panicking() {
    let file = [1, 2, 3, 4];
    let reader = Reader::window(&file, 100, 200);
    assert!(reader.is_empty());
    assert_eq!(reader.rest(), &[] as &[u8]);
}

#[test]
fn find_locates_a_child_by_type() {
    let mut payload = boxed(b"hdlr", b"pict");
    payload.extend_from_slice(&boxed(b"pitm", &[0, 0, 0, 0, 0, 1]));
    let file = boxed(b"meta", &payload);

    let mut reader = Reader::new(&file);
    let meta = reader.next_box().unwrap().unwrap();
    let found = reader.payload(&meta).find(b"pitm").unwrap();
    assert!(found.is_some());
    let missing = reader.payload(&meta).find(b"iloc").unwrap();
    assert!(missing.is_none());
}

#[test]
fn fourcc_display_escapes_unprintable_bytes() {
    assert_eq!(FourCc::new(b"ftyp").to_string(), "ftyp");
    assert_eq!(FourCc::new(&[0x00, 0x41, 0x1b, 0x42]).to_string(), "\\x00A\\x1bB");
}

#[test]
fn text_that_is_not_utf8_is_malformed() {
    let file = [b'a', 0xC3, 0x28, 0];
    let mut reader = Reader::new(&file);
    assert_eq!(reader.cstring().unwrap_err().code(), ErrorCode::Malformed);
    let file = ['\u{e9}' as u8, 0];
    assert!(Reader::new(&file).cstring().is_err());
    let file = "\u{e9}t\u{e9}\0".as_bytes();
    assert_eq!(Reader::new(file).cstring().unwrap(), "\u{e9}t\u{e9}");
}

#[test]
fn a_search_stops_where_it_ended() {
    let mut file = boxed(b"hdlr", b"pict");
    file.extend_from_slice(&[0, 0, 0]);
    let mut reader = Reader::new(&file);
    assert!(reader.find(b"iloc").unwrap().is_none());
    assert_eq!(reader.position(), 12);
    let mut file = boxed(b"hdlr", b"pict");
    file.extend_from_slice(&[0, 0, 0, 99]);
    file.extend_from_slice(b"free");
    let mut reader = Reader::new(&file);
    assert_eq!(reader.find(b"iloc").unwrap_err().code(), ErrorCode::Malformed);
    assert_eq!(reader.position(), 20);
}

#[test]
fn a_refused_box_names_its_type_and_its_numbers() {
    let said = |file: &[u8]| Reader::new(file).next_box().unwrap().unwrap_err().to_string();
    assert_eq!(said(b"\0\0\0\x04free"), "box 'free' declares 4 bytes, less than its own 8-byte header");
    assert_eq!(
        said(b"\0\0\0\x40m\0atxx"),
        "box 'm\\x00at' declares 64 bytes at offset 0, running 54 past the end of its parent"
    );
    assert_eq!(said(b"\0\0\0\x01free\0\0"), "a 8-byte read at offset 8 runs past the end of its box, which holds 2");
    assert_eq!(said(b"\0\0\0\x20uuid1234"), "a 16-byte read at offset 8 runs past the end of its box, which holds 4");
    let mut wide = b"\0\0\0\x01free".to_vec();
    wide.extend_from_slice(&u64::MAX.to_be_bytes());
    let mut second = boxed(b"skip", &[]);
    second.extend_from_slice(&wide);
    let mut reader = Reader::new(&second);
    reader.next_box().unwrap().unwrap();
    assert_eq!(
        reader.next_box().unwrap().unwrap_err().to_string(),
        "box 'free' extends past the address space"
    );
    wide.extend_from_slice(&[0; 12]);
    wide[8] = 0;
    wide[9] = 0;
    assert_eq!(
        said(&wide),
        "box 'free' declares 281474976710655 bytes at offset 0, running 281474976710627 past the end of its parent"
    );
}

#[test]
fn a_refused_read_says_where_and_how_long_it_was() {
    let mut reader = Reader::new(&[1, 2, 3, 4, 5]);
    reader.skip(3).unwrap();
    assert_eq!(
        reader.u32().unwrap_err().to_string(),
        "a 4-byte read at offset 3 runs past the end of its box, which holds 2"
    );
    assert_eq!(
        reader.take(usize::MAX).unwrap_err().to_string(),
        "a 18446744073709551615-byte read overflows the file offset"
    );
    assert_eq!(reader.uint(3).unwrap_err().to_string(), "field width 3 is not one of 0, 4 or 8");
    assert_eq!(Reader::new(&[0xFF, 0]).cstring().unwrap_err().to_string(), "a box string is not valid UTF-8");
}
