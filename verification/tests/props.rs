//! Item properties.
use otf_pixels_codecs::avif::boxes::{FourCc, Reader};
use otf_pixels_codecs::avif::props::{parse_property, Colour, Extents, Properties, Property, Subsampling};
use otf_pixels_codecs::error::{ErrorCode, Outcome};

fn boxed(kind: &[u8; 4], payload: &[u8]) -> Vec<u8> {
    let mut out = Vec::new();
    let total = u32::try_from(8 + payload.len()).unwrap();
    out.extend_from_slice(&total.to_be_bytes());
    out.extend_from_slice(kind);
    out.extend_from_slice(payload);
    out
}

fn ispe(width: u32, height: u32) -> Vec<u8> {
    let mut payload = vec![0, 0, 0, 0];
    payload.extend_from_slice(&width.to_be_bytes());
    payload.extend_from_slice(&height.to_be_bytes());
    boxed(b"ispe", &payload)
}

/// An `av1C` for 8-bit 4:2:0, profile 0, with one trailing config byte.
fn av1c_420_8bit() -> Vec<u8> {
    // marker+version, profile/level, tier/depth/mono/subsampling, delay.
    boxed(b"av1C", &[0x81, 0x00, 0x0C, 0x00, 0xAA])
}

fn parse_one(kind: &[u8; 4], payload: &[u8]) -> Outcome<Property> {
    let file = boxed(kind, payload);
    let mut reader = Reader::new(&file);
    let header = reader.next_box().unwrap().unwrap();
    parse_property(header.kind, reader.payload(&header))
}

#[test]
fn av1c_decodes_profile_depth_and_subsampling() {
    let file = av1c_420_8bit();
    let mut reader = Reader::new(&file);
    let header = reader.next_box().unwrap().unwrap();
    let Property::Av1Config(config) =
        parse_property(header.kind, reader.payload(&header)).unwrap()
    else {
        panic!("expected an av1C");
    };
    assert_eq!(config.seq_profile, 0);
    assert_eq!(config.bit_depth, 8);
    assert_eq!(config.subsampling, Subsampling::Yuv420);
    // Everything after the four-byte record is the config OBU run.
    assert_eq!(config.config_obus, vec![0xAA]);
}

#[test]
fn av1c_twelve_bit_requires_profile_two() {
    // high_bitdepth=1, twelve_bit=1, but profile 0: reads as 10-bit,
    // because only profile 2 can carry twelve-bit samples.
    let file = boxed(b"av1C", &[0x81, 0x00, 0x6C, 0x00]);
    let mut reader = Reader::new(&file);
    let header = reader.next_box().unwrap().unwrap();
    let Property::Av1Config(config) =
        parse_property(header.kind, reader.payload(&header)).unwrap()
    else {
        panic!("expected an av1C");
    };
    assert_eq!(config.bit_depth, 10);

    // The same bits under profile 2 do mean twelve.
    let file = boxed(b"av1C", &[0x81, 0x40, 0x6C, 0x00]);
    let mut reader = Reader::new(&file);
    let header = reader.next_box().unwrap().unwrap();
    let Property::Av1Config(config) =
        parse_property(header.kind, reader.payload(&header)).unwrap()
    else {
        panic!("expected an av1C");
    };
    assert_eq!(config.seq_profile, 2);
    assert_eq!(config.bit_depth, 12);
}

#[test]
fn av1c_rejects_a_bad_marker_or_version() {
    let error = parse_one(b"av1C", &[0x01, 0x00, 0x0C, 0x00]).unwrap_err();
    assert_eq!(error.code(), ErrorCode::Malformed);
    assert!(error.to_string().contains("marker"), "{}", error.to_string());

    let error = parse_one(b"av1C", &[0x82, 0x00, 0x0C, 0x00]).unwrap_err();
    assert_eq!(error.code(), ErrorCode::Malformed);
    assert!(error.to_string().contains("version 2"), "{}", error.to_string());
}

#[test]
fn av1c_rejects_a_subsampling_av1_does_not_define() {
    // 4:4:0 — subsampling_x = 0, subsampling_y = 1.
    let error = parse_one(b"av1C", &[0x81, 0x00, 0x04, 0x00]).unwrap_err();
    assert_eq!(error.code(), ErrorCode::Malformed);
    assert!(error.to_string().contains("subsampling"), "{}", error.to_string());
}

#[test]
fn monochrome_wins_over_the_subsampling_bits() {
    // monochrome = 1 with both subsampling bits set.
    let file = boxed(b"av1C", &[0x81, 0x00, 0x1C, 0x00]);
    let mut reader = Reader::new(&file);
    let header = reader.next_box().unwrap().unwrap();
    let Property::Av1Config(config) =
        parse_property(header.kind, reader.payload(&header)).unwrap()
    else {
        panic!("expected an av1C");
    };
    assert_eq!(config.subsampling, Subsampling::Monochrome);
    assert_eq!(config.subsampling.x_shift(), 0);
    assert_eq!(config.subsampling.y_shift(), 0);
}

#[test]
fn colr_reads_nclx_code_points_and_the_range_flag() {
    let mut payload = Vec::from(*b"nclx");
    payload.extend_from_slice(&1_u16.to_be_bytes());
    payload.extend_from_slice(&13_u16.to_be_bytes());
    payload.extend_from_slice(&6_u16.to_be_bytes());
    payload.push(0x80);

    let Property::Colour(Colour::Nclx {
        primaries,
        transfer,
        matrix,
        full_range,
    }) = parse_one(b"colr", &payload).unwrap()
    else {
        panic!("expected an nclx colr");
    };
    assert_eq!((primaries, transfer, matrix), (1, 13, 6));
    assert!(full_range);
}

#[test]
fn colr_carries_an_icc_profile_through() {
    let mut payload = Vec::from(*b"prof");
    payload.extend_from_slice(&[1, 2, 3, 4]);
    let Property::Colour(Colour::Icc(profile)) = parse_one(b"colr", &payload).unwrap() else {
        panic!("expected an ICC colr");
    };
    assert_eq!(profile, vec![1, 2, 3, 4]);
}

#[test]
fn orientation_properties_are_masked_to_their_defined_bits() {
    // Reserved high bits set; only the low two are the angle.
    assert_eq!(parse_one(b"irot", &[0xFE]).unwrap(), Property::Rotation(2));
    assert_eq!(parse_one(b"imir", &[0xFE]).unwrap(), Property::Mirror(false));
    assert_eq!(parse_one(b"imir", &[0xFF]).unwrap(), Property::Mirror(true));
}

#[test]
fn pixi_reads_one_depth_per_channel() {
    let Property::PixelInfo(info) = parse_one(b"pixi", &[0, 0, 0, 0, 3, 8, 8, 8]).unwrap()
    else {
        panic!("expected a pixi");
    };
    assert_eq!(info.bits_per_channel, vec![8, 8, 8]);
}

#[test]
fn an_uninterpreted_property_is_retained_by_type() {
    assert_eq!(
        parse_one(b"clap", &[0; 32]).unwrap(),
        Property::Unknown(FourCc::new(b"clap"))
    );
}

/// Build an `iprp` with one `ispe` and one `av1C`, associated to item 1.
fn sample_iprp() -> Vec<u8> {
    let mut ipco = ispe(64, 48);
    ipco.extend_from_slice(&av1c_420_8bit());

    // version 0, flags 0, one entry, item 1, two associations: property 1
    // non-essential, property 2 essential.
    let ipma_payload = vec![0, 0, 0, 0, 0, 0, 0, 1, 0, 1, 2, 0x01, 0x82];

    let mut iprp = boxed(b"ipco", &ipco);
    iprp.extend_from_slice(&boxed(b"ipma", &ipma_payload));
    boxed(b"iprp", &iprp)
}

#[test]
fn properties_resolve_through_the_association_map() {
    let file = sample_iprp();
    let mut reader = Reader::new(&file);
    let header = reader.next_box().unwrap().unwrap();
    let properties = Properties::parse(reader.payload(&header)).unwrap();

    assert_eq!(
        properties.extents(1),
        Some(Extents {
            width: 64,
            height: 48
        })
    );
    assert_eq!(properties.av1_config(1).unwrap().bit_depth, 8);
    // An item with no associations resolves to nothing rather than failing.
    assert!(properties.extents(2).is_none());
    assert!(properties.for_item(2).is_empty());
}

#[test]
fn an_out_of_range_association_index_is_skipped_not_indexed() {
    let mut ipco = ispe(8, 8);
    ipco.extend_from_slice(&av1c_420_8bit());
    // Associates property 99, which does not exist, and index 0, which
    // means "no property".
    let ipma_payload = vec![0, 0, 0, 0, 0, 0, 0, 1, 0, 1, 2, 99, 0];
    let mut iprp = boxed(b"ipco", &ipco);
    iprp.extend_from_slice(&boxed(b"ipma", &ipma_payload));
    let file = boxed(b"iprp", &iprp);

    let mut reader = Reader::new(&file);
    let header = reader.next_box().unwrap().unwrap();
    let properties = Properties::parse(reader.payload(&header)).unwrap();
    assert!(properties.for_item(1).is_empty());
}

#[test]
fn an_essential_property_we_do_not_understand_is_reported() {
    let mut ipco = ispe(8, 8);
    // A property type this decoder does not interpret.
    ipco.extend_from_slice(&boxed(b"zzzz", &[0; 4]));
    // Item 1 associates property 2 as essential.
    let ipma_payload = vec![0, 0, 0, 0, 0, 0, 0, 1, 0, 1, 1, 0x82];
    let mut iprp = boxed(b"ipco", &ipco);
    iprp.extend_from_slice(&boxed(b"ipma", &ipma_payload));
    let file = boxed(b"iprp", &iprp);

    let mut reader = Reader::new(&file);
    let header = reader.next_box().unwrap().unwrap();
    let properties = Properties::parse(reader.payload(&header)).unwrap();
    assert_eq!(
        properties.essential_unknown(1),
        Some(FourCc::new(b"zzzz")),
        "an essential unknown property must not be silently ignored"
    );

    // The same property marked non-essential is ignorable.
    let ipma_payload = vec![0, 0, 0, 0, 0, 0, 0, 1, 0, 1, 1, 0x02];
    let mut iprp = boxed(b"ipco", &ipco);
    iprp.extend_from_slice(&boxed(b"ipma", &ipma_payload));
    let file = boxed(b"iprp", &iprp);
    let mut reader = Reader::new(&file);
    let header = reader.next_box().unwrap().unwrap();
    let properties = Properties::parse(reader.payload(&header)).unwrap();
    assert_eq!(properties.essential_unknown(1), None);
}

#[test]
fn ipma_supports_wide_indices_and_wide_item_ids() {
    let mut ipco = ispe(16, 16);
    ipco.extend_from_slice(&av1c_420_8bit());
    // version 1 (32-bit item IDs), flags 1 (15-bit property indices).
    let mut ipma_payload = vec![1, 0, 0, 1];
    ipma_payload.extend_from_slice(&1_u32.to_be_bytes()); // entry count
    ipma_payload.extend_from_slice(&70_000_u32.to_be_bytes()); // item ID
    ipma_payload.push(1); // association count
    ipma_payload.extend_from_slice(&0x0001_u16.to_be_bytes()); // property 1

    let mut iprp = boxed(b"ipco", &ipco);
    iprp.extend_from_slice(&boxed(b"ipma", &ipma_payload));
    let file = boxed(b"iprp", &iprp);

    let mut reader = Reader::new(&file);
    let header = reader.next_box().unwrap().unwrap();
    let properties = Properties::parse(reader.payload(&header)).unwrap();
    assert_eq!(
        properties.extents(70_000),
        Some(Extents {
            width: 16,
            height: 16
        })
    );
}

/// A huge entry count must be rejected against the box's actual size
/// rather than driving an allocation proportional to the claim.
#[test]
fn ipma_rejects_more_entries_than_the_box_can_hold() {
    let ipma_payload = vec![0, 0, 0, 0, 0xFF, 0xFF, 0xFF, 0xFF, 0, 1, 0];
    let mut iprp = boxed(b"ipco", &ispe(8, 8));
    iprp.extend_from_slice(&boxed(b"ipma", &ipma_payload));
    let file = boxed(b"iprp", &iprp);

    let mut reader = Reader::new(&file);
    let header = reader.next_box().unwrap().unwrap();
    let error = Properties::parse(reader.payload(&header)).unwrap_err();
    assert_eq!(error.code(), ErrorCode::Malformed);
    assert!(error.to_string().contains("more than its"), "{}", error.to_string());
}

#[test]
fn auxc_reads_the_alpha_urn() {
    let mut payload = vec![0, 0, 0, 0];
    payload.extend_from_slice(b"urn:mpeg:mpegB:cicp:systems:auxiliary:alpha\0");
    assert_eq!(
        parse_one(b"auxC", &payload).unwrap(),
        Property::AuxiliaryType("urn:mpeg:mpegB:cicp:systems:auxiliary:alpha".to_owned())
    );
}

#[test]
fn the_first_rotation_and_mirror_are_read_together() {
    let mut ipco = boxed(b"irot", &[1]);
    ipco.extend_from_slice(&boxed(b"imir", &[1]));
    let ipma_payload = vec![0, 0, 0, 0, 0, 0, 0, 1, 0, 1, 2, 0x01, 0x02];
    let mut iprp = boxed(b"ipco", &ipco);
    iprp.extend_from_slice(&boxed(b"ipma", &ipma_payload));
    let properties = Properties::parse(Reader::new(&iprp)).unwrap();
    assert_eq!(properties.orientation(1), (1, Some(true)));
    assert_eq!(properties.orientation(2), (0, None));
}

#[test]
fn refused_properties_say_why() {
    let said = |kind: &[u8; 4], payload: &[u8]| parse_one(kind, payload).unwrap_err().to_string();
    assert_eq!(said(b"av1C", &[0x01, 0, 0, 0]), "the av1C marker bit is not set");
    assert_eq!(said(b"av1C", &[0xFF, 0, 0, 0]), "av1C record version 127 is not 1");
    assert_eq!(
        said(b"av1C", &[0x81, 0, 0x04, 0]),
        "av1C declares chroma subsampling (0, 1), which AV1 has no such format for"
    );
    assert_eq!(said(b"av1C", &[0x81, 0]), "a 1-byte read at offset 10 runs past the end of its box, which holds 0");
    assert_eq!(
        said(b"colr", b"abcd"),
        "colr declares colour type 'abcd', which is not one this format defines"
    );
    // The third of three depths is missing.
    assert_eq!(
        said(b"pixi", &[0, 0, 0, 0, 3, 8, 8]),
        "a 1-byte read at offset 15 runs past the end of its box, which holds 0"
    );
    assert_eq!(
        said(b"ispe", &[0, 0, 0, 0, 0, 0, 0, 1, 0]),
        "a 4-byte read at offset 16 runs past the end of its box, which holds 1"
    );
}

#[test]
fn refused_associations_say_how_many_there_are() {
    let said = |payload: &[u8]| {
        let file = boxed(b"ipma", payload);
        Properties::parse(Reader::new(&file)).unwrap_err().to_string()
    };
    assert_eq!(
        said(&[0, 0, 0, 0, 0xFF, 0xFF, 0xFF, 0xFF, 1, 2, 3]),
        "ipma declares 4294967295 entries, more than its 3 remaining bytes can hold"
    );
    // Two wide associations, of which the second is cut.
    assert_eq!(
        said(&[0, 0, 0, 1, 0, 0, 0, 1, 0, 1, 2, 0, 1, 0]),
        "a 2-byte read at offset 21 runs past the end of its box, which holds 1"
    );
}
