//! The blocks of a GIF stream.
use otf_pixels_codecs::gif::format::{
    deinterlace, interlaced_pass_rows, interlaced_row, read_sub_blocks, skip_sub_blocks, write_sub_blocks, Disposal,
    GraphicControl, ImageDescriptor, Screen,
};

#[test]
fn a_screen_descriptor_decodes_its_packed_fields() {
    // 4x3 canvas, global table present with 2^(3+1) = 16 entries.
    let bytes = [4, 0, 3, 0, 0x80 | 0x03, 7, 0];
    let screen = Screen::parse(&bytes).unwrap();
    assert_eq!((screen.width, screen.height), (4, 3));
    assert_eq!(screen.global_table_size, 16);
    assert_eq!(screen.background, 7);
}

#[test]
fn a_screen_without_a_global_table_reports_none() {
    let bytes = [4, 0, 3, 0, 0x07, 0, 0];
    let screen = Screen::parse(&bytes).unwrap();
    assert_eq!(
        screen.global_table_size, 0,
        "the size bits must be ignored when the flag is clear"
    );
}

#[test]
fn a_zero_sized_screen_is_malformed() {
    assert!(Screen::parse(&[0, 0, 3, 0, 0, 0, 0]).is_err());
    assert!(Screen::parse(&[4, 0, 0, 0, 0, 0, 0]).is_err());
}

#[test]
fn an_image_descriptor_decodes_its_packed_fields() {
    // At (1,2), 5x6, local table of 2^(2+1) = 8, interlaced.
    let bytes = [1, 0, 2, 0, 5, 0, 6, 0, 0x80 | 0x40 | 0x02];
    let image = ImageDescriptor::parse(&bytes).unwrap();
    assert_eq!((image.left, image.top), (1, 2));
    assert_eq!((image.width, image.height), (5, 6));
    assert_eq!(image.local_table_size, 8);
    assert!(image.interlaced);
}

#[test]
fn graphic_control_decodes_disposal_and_transparency() {
    // Disposal 2 (background), delay 0x0102, transparent index 5.
    let control = GraphicControl::parse(&[(2 << 2) | 0x01, 0x02, 0x01, 5]);
    assert_eq!(control.disposal, Disposal::Background);
    assert_eq!(control.delay_centiseconds, 0x0102);
    assert_eq!(control.transparent, Some(5));

    // Transparency flag clear means no transparent index, whatever the
    // index byte says.
    let opaque = GraphicControl::parse(&[0, 0, 0, 5]);
    assert_eq!(opaque.transparent, None);
}

#[test]
fn reserved_disposal_values_are_treated_as_none() {
    // Rejecting a reserved value would fail files that display fine
    // everywhere else.
    for bits in 4..=7 {
        assert_eq!(Disposal::from_bits(bits), Disposal::Unspecified, "{bits}");
    }
}

#[test]
fn the_four_interlace_passes_cover_every_row_exactly_once() {
    // The classic interlace bug is a row emitted twice or not at all, and
    // it is invisible on a height that happens to divide evenly.
    for height in 1..40_u32 {
        let mut seen = vec![0_u32; height as usize];
        let mut total = 0;
        for pass in 0..4 {
            let rows = interlaced_pass_rows(pass, height);
            for index in 0..rows {
                let row = interlaced_row(pass, index, height)
                    .unwrap_or_else(|| panic!("pass {pass} row {index} of {height}"));
                seen[row as usize] += 1;
                total += 1;
            }
        }
        assert_eq!(total, height, "height {height} emitted {total} rows");
        assert!(
            seen.iter().all(|&n| n == 1),
            "height {height} covered rows {seen:?}"
        );
    }
}

#[test]
fn interlaced_rows_past_a_pass_are_none() {
    assert_eq!(interlaced_row(0, 0, 1), Some(0));
    assert_eq!(interlaced_row(1, 0, 1), None, "pass 1 starts at row 4");
    assert_eq!(
        interlaced_row(9, 0, 100),
        None,
        "there are only four passes"
    );
}

#[test]
fn sub_blocks_round_trip() {
    for length in [0_usize, 1, 254, 255, 256, 1000] {
        let payload: Vec<u8> = (0..length).map(|i| (i % 251) as u8).collect();
        let mut encoded = Vec::new();
        write_sub_blocks(&mut encoded, &payload);
        assert_eq!(
            encoded.last().copied(),
            Some(0),
            "a chain must end with a zero length"
        );
        let mut source = &encoded[..];
        let decoded = read_sub_blocks(&mut source, 1 << 20).unwrap();
        assert_eq!(decoded, payload, "length {length}");
    }
}

#[test]
fn a_sub_block_chain_can_be_skipped_without_reading_it() {
    let mut encoded = Vec::new();
    write_sub_blocks(&mut encoded, &vec![7_u8; 600]);
    encoded.extend_from_slice(b"after");
    let mut source = &encoded[..];
    skip_sub_blocks(&mut source).unwrap();
    assert_eq!(source, b"after", "skipping stopped in the wrong place");
}

#[test]
fn a_truncated_chain_is_an_error_not_a_hang() {
    let mut encoded = Vec::new();
    write_sub_blocks(&mut encoded, &vec![1_u8; 300]);
    for cut in 0..encoded.len() {
        let mut source = &encoded[..cut];
        let _ = read_sub_blocks(&mut source, 1 << 20);
    }
}

#[test]
fn an_unbounded_chain_is_refused() {
    // A chain is length-prefixed by block but unbounded overall.
    let mut encoded = Vec::new();
    write_sub_blocks(&mut encoded, &vec![0_u8; 100_000]);
    let mut source = &encoded[..];
    let error = read_sub_blocks(&mut source, 4096).unwrap_err();
    assert!(error.to_string().contains("limit"), "{}", error.to_string());
}

#[test]
fn every_stored_row_has_a_place() {
    for height in 1..40_u32 {
        let mut seen = vec![false; height as usize];
        for stored in 0..height {
            seen[deinterlace(stored, height).unwrap() as usize] = true;
        }
        assert!(seen.iter().all(|&s| s));
        assert_eq!(deinterlace(height, height), None);
    }
    let order: Vec<u32> = (0..10).map(|stored| deinterlace(stored, 10).unwrap()).collect();
    assert_eq!(order, [0, 8, 4, 2, 6, 1, 3, 5, 7, 9]);
}

#[test]
fn a_truncated_chain_is_malformed() {
    let mut source = &[3_u8, 1, 2][..];
    assert!(read_sub_blocks(&mut source, 100).is_err());
    let mut source = &[3_u8, 1, 2][..];
    assert!(skip_sub_blocks(&mut source).is_err());
    let mut source = &[][..];
    assert!(skip_sub_blocks(&mut source).is_err());
}

#[test]
fn an_image_of_no_pixels_is_malformed() {
    assert!(ImageDescriptor::parse(&[0, 0, 0, 0, 0, 0, 6, 0, 0]).is_err());
    assert!(ImageDescriptor::parse(&[0, 0, 0, 0, 6, 0, 0, 0, 0]).is_err());
}

#[test]
fn a_chain_that_is_too_long_stops_behind_a_length() {
    let mut source = &[2_u8, 7, 8, 3, 9, 9, 9, 0][..];
    assert!(read_sub_blocks(&mut source, 4).is_err());
    assert_eq!(source, [9, 9, 9, 0]);
    let mut source = &[2_u8, 7, 8, 3, 9][..];
    assert!(skip_sub_blocks(&mut source).is_err());
    assert!(source.is_empty());
}
