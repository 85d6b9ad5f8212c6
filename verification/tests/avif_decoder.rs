//! The AVIF container and decoder.
use otf_pixels_codecs::av1::cdf::CdfTable;
use otf_pixels_codecs::av1::tile::Defaults;
use otf_pixels_codecs::av1::transform::QuantTables;
use otf_pixels_codecs::avif::container::{pixel_format, probe, AvifCodec, AvifInfo};
use otf_pixels_codecs::avif::decoder::AvifDecoder;
use otf_pixels_codecs::avif::meta::URN_ALPHA;
use otf_pixels_codecs::avif::props::{Av1Config, Subsampling};
use otf_pixels_codecs::error::ErrorCode;
use otf_pixels_codecs::pixel::{Format, PixelFormat};

/// A distribution that gives every symbol the same share.
fn flat(symbols: usize) -> Vec<u16> {
    let mut row: Vec<u16> = (1..=symbols).map(|k| (32768 * k / symbols) as u16).collect();
    row.push(0);
    row
}

fn table(families: &[(usize, usize)]) -> CdfTable {
    let mut rows = Vec::new();
    for &(count, symbols) in families {
        rows.extend(vec![flat(symbols); count]);
    }
    CdfTable::from_rows(rows)
}

fn coefficients() -> CdfTable {
    table(&[(13, 2), (4, 5), (18, 2), (8, 3), (84, 4), (42, 4), (6, 2)])
}

fn modes() -> CdfTable {
    let mut families = vec![
        (4, 4), (12, 10), (4, 8), (3, 2), (25, 13), (13, 14), (13, 13), (8, 7), (22, 2), (1, 5), (21, 2), (2, 2), (14, 7),
    ];
    for _ in 0..2 {
        for size in 2..=8 {
            families.push((5, size));
        }
    }
    families.extend([(1, 8), (6, 16)]);
    table(&families)
}

/// Tables of flat distributions, and quantiser steps of four.
fn flat_defaults() -> Defaults {
    Defaults::new(
        modes(),
        [coefficients(), coefficients(), coefficients(), coefficients()],
        table(&[(3, 2), (9, 3)]),
        QuantTables { dc: [[4; 256]; 3], ac: [[4; 256]; 3] },
    )
    .unwrap()
}

fn boxed(kind: &[u8; 4], payload: &[u8]) -> Vec<u8> {
    let mut out = Vec::new();
    let total = u32::try_from(8 + payload.len()).unwrap();
    out.extend_from_slice(&total.to_be_bytes());
    out.extend_from_slice(kind);
    out.extend_from_slice(payload);
    out
}

fn ftyp(major: &[u8; 4], compatible: &[&[u8; 4]]) -> Vec<u8> {
    let mut payload = Vec::from(*major);
    payload.extend_from_slice(&0_u32.to_be_bytes());
    for brand in compatible {
        payload.extend_from_slice(*brand);
    }
    boxed(b"ftyp", &payload)
}

/// An `av1C` for 8-bit 4:2:0, profile 0.
fn av1c() -> Vec<u8> {
    boxed(b"av1C", &[0x81, 0x00, 0x0C, 0x00])
}

fn ispe(width: u32, height: u32) -> Vec<u8> {
    let mut payload = vec![0, 0, 0, 0];
    payload.extend_from_slice(&width.to_be_bytes());
    payload.extend_from_slice(&height.to_be_bytes());
    boxed(b"ispe", &payload)
}

fn infe(id: u16, kind: &[u8; 4], hidden: bool) -> Vec<u8> {
    let mut payload = vec![2, 0, 0, u8::from(hidden)];
    payload.extend_from_slice(&id.to_be_bytes());
    payload.extend_from_slice(&[0, 0]);
    payload.extend_from_slice(kind);
    payload.push(0);
    boxed(b"infe", &payload)
}

fn iinf(entries: &[Vec<u8>]) -> Vec<u8> {
    let mut payload = vec![0, 0, 0, 0];
    payload.extend_from_slice(&u16::try_from(entries.len()).unwrap().to_be_bytes());
    for entry in entries {
        payload.extend_from_slice(entry);
    }
    boxed(b"iinf", &payload)
}

fn iloc(rows: &[(u16, u32, u32)]) -> Vec<u8> {
    let mut payload = vec![0, 0, 0, 0, 0x44, 0x00];
    payload.extend_from_slice(&u16::try_from(rows.len()).unwrap().to_be_bytes());
    for (id, offset, length) in rows {
        payload.extend_from_slice(&id.to_be_bytes());
        payload.extend_from_slice(&[0, 0]);
        payload.extend_from_slice(&1_u16.to_be_bytes());
        payload.extend_from_slice(&offset.to_be_bytes());
        payload.extend_from_slice(&length.to_be_bytes());
    }
    boxed(b"iloc", &payload)
}

fn pitm(id: u16) -> Vec<u8> {
    let mut payload = vec![0, 0, 0, 0];
    payload.extend_from_slice(&id.to_be_bytes());
    boxed(b"pitm", &payload)
}

/// An `ipma` associating each `(item, [properties])` pair, all
/// non-essential.
fn ipma(rows: &[(u16, &[u8])]) -> Vec<u8> {
    let mut payload = vec![0, 0, 0, 0];
    payload.extend_from_slice(&u32::try_from(rows.len()).unwrap().to_be_bytes());
    for (item, properties) in rows {
        payload.extend_from_slice(&item.to_be_bytes());
        payload.push(u8::try_from(properties.len()).unwrap());
        payload.extend_from_slice(properties);
    }
    boxed(b"ipma", &payload)
}

fn iprp(properties: &[Vec<u8>], associations: &[(u16, &[u8])]) -> Vec<u8> {
    let mut ipco = Vec::new();
    for property in properties {
        ipco.extend_from_slice(property);
    }
    let mut payload = boxed(b"ipco", &ipco);
    payload.extend_from_slice(&ipma(associations));
    boxed(b"iprp", &payload)
}

fn meta_box(children: &[Vec<u8>]) -> Vec<u8> {
    let mut payload = vec![0, 0, 0, 0];
    for child in children {
        payload.extend_from_slice(child);
    }
    boxed(b"meta", &payload)
}

/// A minimal single-item AVIF: one `av01` item, `ispe` then `av1C`.
fn minimal_avif(width: u32, height: u32) -> Vec<u8> {
    let mut file = ftyp(b"avif", &[b"mif1"]);
    file.extend_from_slice(&meta_box(&[
        pitm(1),
        iinf(&[infe(1, b"av01", false)]),
        iloc(&[(1, 0, 1)]),
        iprp(&[ispe(width, height), av1c()], &[(1, &[1, 2])]),
    ]));
    file.extend_from_slice(&boxed(b"mdat", &[0]));
    file
}

#[test]
fn reads_dimensions_without_decoding_pixels() {
    let tables = flat_defaults();
    let file = minimal_avif(320, 240);
    let decoder = AvifDecoder::new(&file[..], &tables).unwrap();
    assert_eq!((decoder.info().width, decoder.info().height), (320, 240));
    assert_eq!(pixel_format(decoder.info()), PixelFormat::Rgb8);
    assert_eq!(decoder.info().config.bit_depth, 8);
    assert_eq!(decoder.info().config.subsampling, Subsampling::Yuv420);
    assert!(!decoder.info().has_alpha);
    assert!(!decoder.info().is_grid);
}

#[test]
fn an_alpha_auxiliary_item_widens_the_pixel_format() {
    let tables = flat_defaults();
    let mut auxl = Vec::new();
    auxl.extend_from_slice(&2_u16.to_be_bytes()); // from the alpha item
    auxl.extend_from_slice(&1_u16.to_be_bytes());
    auxl.extend_from_slice(&1_u16.to_be_bytes()); // to the colour item
    let mut iref_payload = vec![0, 0, 0, 0];
    iref_payload.extend_from_slice(&boxed(b"auxl", &auxl));

    let mut auxc_payload = vec![0, 0, 0, 0];
    auxc_payload.extend_from_slice(URN_ALPHA.as_bytes());
    auxc_payload.push(0);

    let mut file = ftyp(b"avif", &[]);
    file.extend_from_slice(&meta_box(&[
        pitm(1),
        iinf(&[infe(1, b"av01", false), infe(2, b"av01", true)]),
        iloc(&[(1, 0, 1), (2, 0, 1)]),
        boxed(b"iref", &iref_payload),
        iprp(
            &[ispe(8, 8), av1c(), boxed(b"auxC", &auxc_payload)],
            &[(1, &[1, 2]), (2, &[1, 2, 3])],
        ),
    ]));

    let decoder = AvifDecoder::new(&file[..], &tables).unwrap();
    assert!(decoder.info().has_alpha);
    assert_eq!(pixel_format(decoder.info()), PixelFormat::Rgba8);
}

#[test]
fn a_grid_takes_its_configuration_from_its_first_tile() {
    let tables = flat_defaults();
    let mut dimg = Vec::new();
    dimg.extend_from_slice(&1_u16.to_be_bytes()); // from the grid
    dimg.extend_from_slice(&2_u16.to_be_bytes()); // two tiles
    dimg.extend_from_slice(&2_u16.to_be_bytes());
    dimg.extend_from_slice(&3_u16.to_be_bytes());
    let mut iref_payload = vec![0, 0, 0, 0];
    iref_payload.extend_from_slice(&boxed(b"dimg", &dimg));

    let mut file = ftyp(b"avif", &[]);
    file.extend_from_slice(&meta_box(&[
        pitm(1),
        iinf(&[
            infe(1, b"grid", false),
            infe(2, b"av01", true),
            infe(3, b"av01", true),
        ]),
        iloc(&[(1, 0, 1), (2, 0, 1), (3, 0, 1)]),
        boxed(b"iref", &iref_payload),
        // The grid carries the full size; the tiles carry the av1C.
        iprp(
            &[ispe(128, 64), av1c(), ispe(64, 64)],
            &[(1, &[1]), (2, &[3, 2]), (3, &[3, 2])],
        ),
    ]));

    let decoder = AvifDecoder::new(&file[..], &tables).unwrap();
    assert!(decoder.info().is_grid);
    assert_eq!(
        (decoder.info().width, decoder.info().height),
        (128, 64)
    );
    assert_eq!(decoder.info().config.bit_depth, 8);
}

#[test]
fn monochrome_and_wide_samples_choose_the_right_pixel_format() {
    fn format_for(av1c_bytes: [u8; 4], has_alpha: bool) -> PixelFormat {
        let info = AvifInfo {
            width: 1,
            height: 1,
            config: Av1Config {
                seq_profile: av1c_bytes[1] >> 5,
                seq_level_idx0: 0,
                seq_tier0: 0,
                bit_depth: 8,
                subsampling: Subsampling::Yuv420,
                chroma_sample_position: 0,
                config_obus: Vec::new(),
            },
            has_alpha,
            is_grid: false,
        };
        pixel_format(&info)
    }
    assert_eq!(format_for([0x81, 0, 0x0C, 0], false), PixelFormat::Rgb8);
    assert_eq!(format_for([0x81, 0, 0x0C, 0], true), PixelFormat::Rgba8);

    let mono = |depth: u8, alpha: bool| {
        pixel_format(&AvifInfo {
            width: 1,
            height: 1,
            config: Av1Config {
                seq_profile: 0,
                seq_level_idx0: 0,
                seq_tier0: 0,
                bit_depth: depth,
                subsampling: Subsampling::Monochrome,
                chroma_sample_position: 0,
                config_obus: Vec::new(),
            },
            has_alpha: alpha,
            is_grid: false,
        })
    };
    assert_eq!(mono(8, false), PixelFormat::Gray8);
    assert_eq!(mono(8, true), PixelFormat::GrayA8);
    assert_eq!(mono(10, false), PixelFormat::Gray16);
    // No GrayA16 exists, so this widens rather than dropping a channel.
    assert_eq!(mono(12, true), PixelFormat::Rgba16);
}

#[test]
fn the_row_buffer_size_contract_is_enforced_before_decoding() {
    let tables = flat_defaults();
    let file = minimal_avif(4, 4);
    let mut decoder = AvifDecoder::new(&file[..], &tables).unwrap();

    // A wrong-sized buffer is an argument error, checked before the decode
    // is reached.
    let mut wrong = [0_u8; 3];
    assert_eq!(
        decoder.read_row(&mut wrong).unwrap_err().code(),
        ErrorCode::InvalidArgument
    );

    // The file carries no coded frame.
    let mut row = vec![0_u8; 4 * pixel_format(decoder.info()).bytes_per_pixel()];
    assert!(decoder.read_row(&mut row).is_err());
}


#[test]
fn an_essential_property_we_do_not_understand_refuses_the_file() {
    let tables = flat_defaults();
    let mut file = ftyp(b"avif", &[]);
    file.extend_from_slice(&meta_box(&[
        pitm(1),
        iinf(&[infe(1, b"av01", false)]),
        iloc(&[(1, 0, 1)]),
        // Property 3 is unknown and marked essential (high bit set).
        iprp(
            &[ispe(8, 8), av1c(), boxed(b"zzzz", &[0; 4])],
            &[(1, &[1, 2, 0x83])],
        ),
    ]));

    let error = AvifDecoder::new(&file[..], &tables).err().unwrap();
    assert_eq!(error.code(), ErrorCode::Unsupported);
    assert!(error.to_string().contains("zzzz"), "{}", error.to_string());
}

#[test]
fn a_file_without_the_boxes_an_image_needs_is_rejected() {
    let tables = flat_defaults();
    // No meta at all.
    let mut file = ftyp(b"avif", &[]);
    file.extend_from_slice(&boxed(b"mdat", &[0; 4]));
    let error = AvifDecoder::new(&file[..], &tables).err().unwrap();
    assert_eq!(error.code(), ErrorCode::Malformed);
    assert!(error.to_string().contains("no meta box"), "{}", error.to_string());

    // A meta with no items.
    let mut file = ftyp(b"avif", &[]);
    file.extend_from_slice(&meta_box(&[pitm(1)]));
    let error = AvifDecoder::new(&file[..], &tables).err().unwrap();
    assert_eq!(error.code(), ErrorCode::Malformed);
    assert!(
        error.to_string().contains("no primary image item"),
        "{}", error.to_string()
    );

    // An item with no ispe, so no dimensions.
    let mut file = ftyp(b"avif", &[]);
    file.extend_from_slice(&meta_box(&[
        pitm(1),
        iinf(&[infe(1, b"av01", false)]),
        iloc(&[(1, 0, 1)]),
        iprp(&[av1c()], &[(1, &[1])]),
    ]));
    let error = AvifDecoder::new(&file[..], &tables).err().unwrap();
    assert_eq!(error.code(), ErrorCode::Malformed);
    assert!(error.to_string().contains("no ispe"), "{}", error.to_string());

    // An item with no av1C, so it is not a coded AV1 image.
    let mut file = ftyp(b"avif", &[]);
    file.extend_from_slice(&meta_box(&[
        pitm(1),
        iinf(&[infe(1, b"av01", false)]),
        iloc(&[(1, 0, 1)]),
        iprp(&[ispe(8, 8)], &[(1, &[1])]),
    ]));
    let error = AvifDecoder::new(&file[..], &tables).err().unwrap();
    assert_eq!(error.code(), ErrorCode::Malformed);
    assert!(error.to_string().contains("no av1C"), "{}", error.to_string());
}

#[test]
fn a_stream_that_is_not_an_avif_is_rejected() {
    let tables = flat_defaults();
    for bytes in [
        &b""[..],
        &b"not an avif at all"[..],
        &b"\x89PNG\r\n\x1a\n"[..],
    ] {
        let error = AvifDecoder::new(bytes, &tables).err().unwrap();
        assert_eq!(error.code(), ErrorCode::Malformed, "for {bytes:?}");
    }
}

#[test]
fn probe_needs_a_brand_not_just_an_isobmff_header() {
    assert!(probe(&ftyp(b"avif", &[])));
    // The common real-world shape: mif1 major, avif compatible.
    assert!(probe(&ftyp(b"mif1", &[b"avif", b"miaf"])));
    assert!(probe(&ftyp(b"MA1B", &[])));
    assert!(probe(&ftyp(b"avis", &[b"avif"])));

    // Other ISOBMFF families must not be claimed.
    assert!(!probe(&ftyp(b"isom", &[b"mp42"])));
    assert!(!probe(&ftyp(b"heic", &[b"heix"])));
    assert!(!probe(&ftyp(b"qt  ", &[])));

    // Short prefixes are declined, never indexed past.
    assert!(!probe(b""));
    assert!(!probe(b"\0\0\0\x20ftyp"));
    assert!(!probe(b"\x89PNG\r\n\x1a\n"));
}

/// The minor version sits between the major brand and the compatible
/// brands, and is a number. A file whose minor version happened to spell
/// a brand must not be claimed on that basis.
#[test]
fn the_minor_version_is_not_read_as_a_brand() {
    let mut payload = Vec::from(*b"isom");
    payload.extend_from_slice(b"avif"); // minor version, not a brand
    payload.extend_from_slice(b"mp42");
    assert!(!probe(&boxed(b"ftyp", &payload)));
}

#[test]
fn the_codec_entry_reports_the_format() {
    assert_eq!(AvifCodec.format(), Format::Avif);
    assert!(AvifCodec.probe(&ftyp(b"avif", &[])));
    assert!(!AvifCodec.probe(b"short"));
}

/// Packs bits, most significant first.
struct Bits {
    bits: Vec<u8>,
}

impl Bits {
    fn new() -> Self {
        Self { bits: Vec::new() }
    }

    fn put(&mut self, value: u32, n: u32) -> &mut Self {
        for i in (0..n).rev() {
            self.bits.push(((value >> i) & 1) as u8);
        }
        self
    }

    fn pack(&self) -> Vec<u8> {
        let mut out = vec![0_u8; self.bits.len().div_ceil(8)];
        for (i, &bit) in self.bits.iter().enumerate() {
            out[i / 8] |= bit << (7 - i % 8);
        }
        out
    }
}

fn obu(kind: u8, payload: &[u8]) -> Vec<u8> {
    let mut out = vec![(kind << 3) | 2, u8::try_from(payload.len()).unwrap()];
    out.extend_from_slice(payload);
    out
}

/// A sequence header of full chroma and 8 bits, with a matrix.
fn sequence(width: u32, height: u32, matrix: u32) -> Vec<u8> {
    let mut b = Bits::new();
    b.put(1, 3).put(1, 1).put(1, 1).put(1, 5);
    b.put(15, 4).put(15, 4).put(width - 1, 16).put(height - 1, 16);
    b.put(0, 6); // superblock, filters, super-resolution, restoration
    b.put(0, 1).put(1, 1).put(1, 8).put(13, 8).put(matrix, 8);
    if matrix != 0 {
        b.put(1, 1); // range
    }
    b.put(0, 1).put(0, 1);
    b.pack()
}

/// The header of a lossless frame, and its tile.
fn lossless_frame(tile: &[u8]) -> Vec<u8> {
    let mut b = Bits::new();
    b.put(0, 1).put(0, 1).put(0, 1).put(1, 1);
    b.put(0, 8).put(0, 4).put(0, 1).put(0, 1);
    let mut bytes = b.pack();
    bytes.extend_from_slice(tile);
    bytes
}

/// A file of one coded picture.
fn coded_avif(width: u32, height: u32, config: [u8; 4], matrix: u32, tile: &[u8]) -> Vec<u8> {
    let mut item = obu(1, &sequence(width, height, matrix));
    item.extend_from_slice(&obu(6, &lossless_frame(tile)));
    let build = |base: u32| {
        let mut file = ftyp(b"avif", &[b"mif1"]);
        file.extend_from_slice(&meta_box(&[
            pitm(1),
            iinf(&[infe(1, b"av01", false)]),
            iloc(&[(1, base, u32::try_from(item.len()).unwrap())]),
            iprp(&[ispe(width, height), boxed(b"av1C", &config)], &[(1, &[1, 2])]),
        ]));
        file
    };
    let mut file = build(u32::try_from(build(0).len()).unwrap());
    file.extend_from_slice(&item);
    file
}

const FULL_CHROMA: [u8; 4] = [0x81, 0x20, 0x00, 0x00];

#[test]
fn a_lossless_picture_is_served_row_by_row() {
    let tables = flat_defaults();
    let tile = [0x9C, 0x31, 0x5E, 0xA0, 0x47, 0x1B, 0xD2, 0x83, 0x66, 0x0F];
    let file = coded_avif(12, 9, FULL_CHROMA, 0, &tile);
    let mut decoder = AvifDecoder::new(&file, &tables).unwrap();
    let mut rows = Vec::new();
    for _ in 0..9 {
        let mut row = [0_u8; 36];
        decoder.read_row(&mut row).unwrap();
        rows.push(row);
    }
    let mut row = [7_u8; 36];
    assert_eq!(decoder.read_row(&mut row).unwrap_err().code(), ErrorCode::InvalidArgument);
    assert_eq!(row, [7_u8; 36]);
    // The same file gives the same rows, and another tile gives others.
    let mut again = AvifDecoder::new(&file, &tables).unwrap();
    for expected in &rows {
        let mut row = [0_u8; 36];
        again.read_row(&mut row).unwrap();
        assert_eq!(&row, expected);
    }
    let other = coded_avif(12, 9, FULL_CHROMA, 0, &[0x11, 0xE4, 0x5F, 0x92, 0x3D, 0x70, 0xC8]);
    let mut decoder = AvifDecoder::new(&other, &tables).unwrap();
    let mut differs = false;
    for expected in &rows {
        let mut row = [0_u8; 36];
        decoder.read_row(&mut row).unwrap();
        differs |= &row != expected;
    }
    assert!(differs);
}

#[test]
fn another_matrix_or_format_is_unsupported() {
    let tables = flat_defaults();
    let tile = [0x9C, 0x31, 0x5E, 0xA0];
    let file = coded_avif(8, 8, FULL_CHROMA, 1, &tile);
    let mut decoder = AvifDecoder::new(&file, &tables).unwrap();
    assert_eq!(decoder.read_row(&mut [0; 24]).unwrap_err().code(), ErrorCode::Unsupported);
    // The container says ten bits a sample.
    let file = coded_avif(8, 8, [0x81, 0x20, 0x40, 0x00], 0, &tile);
    let mut decoder = AvifDecoder::new(&file, &tables).unwrap();
    assert_eq!(pixel_format(decoder.info()), PixelFormat::Rgb16);
    assert_eq!(decoder.read_row(&mut [0; 48]).unwrap_err().code(), ErrorCode::Unsupported);
}

#[test]
fn a_grid_is_described_but_not_decoded() {
    let tables = flat_defaults();
    let mut dimg = Vec::new();
    dimg.extend_from_slice(&1_u16.to_be_bytes());
    dimg.extend_from_slice(&1_u16.to_be_bytes());
    dimg.extend_from_slice(&2_u16.to_be_bytes());
    let mut iref_payload = vec![0, 0, 0, 0];
    iref_payload.extend_from_slice(&boxed(b"dimg", &dimg));
    let mut file = ftyp(b"avif", &[]);
    file.extend_from_slice(&meta_box(&[
        pitm(1),
        iinf(&[infe(1, b"grid", false), infe(2, b"av01", true)]),
        iloc(&[(1, 0, 1), (2, 0, 1)]),
        boxed(b"iref", &iref_payload),
        iprp(&[ispe(4, 4), av1c()], &[(1, &[1]), (2, &[1, 2])]),
    ]));
    let mut decoder = AvifDecoder::new(&file, &tables).unwrap();
    assert_eq!(decoder.read_row(&mut [0; 12]).unwrap_err().code(), ErrorCode::Unsupported);
}

#[test]
fn the_codec_entry_needs_no_more_than_its_magic_bytes() {
    assert_eq!(AvifCodec.magic_len(), 32);
    let file = ftyp(b"mif1", &[b"miaf", b"avif"]);
    assert!(AvifCodec.probe(&file[..24]));
}

#[test]
fn a_refused_file_says_why() {
    let tables = flat_defaults();
    let said = |file: &[u8]| AvifDecoder::new(file, &tables).err().unwrap().to_string();
    let with = |children: &[Vec<u8>]| {
        let mut file = ftyp(b"avif", &[]);
        file.extend_from_slice(&meta_box(children));
        file
    };
    let one = |kind: &[u8; 4]| vec![pitm(7), iinf(&[infe(7, kind, false)]), iloc(&[(7, 0, 1)])];
    assert_eq!(said(b"avif"), "the file holds no boxes");
    assert_eq!(said(&boxed(b"moov", &[])), "the file begins with 'moov' rather than 'ftyp'");
    assert_eq!(said(&ftyp(b"heic", &[])), "the ftyp box declares no brand this decoder recognises");
    assert_eq!(said(&ftyp(b"avif", &[])), "the file has no meta box");
    assert_eq!(said(&with(&[])), "the file names no primary image item");
    assert_eq!(
        said(&with(&one(b"Exif"))),
        "avif: the primary item has type 'Exif', which is not an image this decoder produces"
    );
    assert_eq!(said(&with(&one(b"av01"))), "item 7 has no ispe property, so its size is unknown");
    let mut sized = one(b"av01");
    sized.push(iprp(&[ispe(8, 8)], &[(7, &[1])]));
    assert_eq!(said(&with(&sized)), "item 7 has no av1C property, so it is not a coded AV1 image");
    let mut grid = one(b"grid");
    grid.push(iprp(&[ispe(8, 8)], &[(7, &[1])]));
    assert_eq!(said(&with(&grid)), "grid item 7 references no tiles");
    let mut odd = one(b"av01");
    odd.push(iprp(&[ispe(8, 8), boxed(b"zzzz", &[])], &[(7, &[1, 0x82])]));
    assert_eq!(
        said(&with(&odd)),
        "avif: the primary item requires the 'zzzz' property, which this decoder does not implement"
    );
    // A broken box before the item table, and one in it.
    let mut broken = ftyp(b"avif", &[]);
    let at = broken.len();
    broken.extend_from_slice(b"\0\0\0\x02free");
    assert_eq!(said(&broken), "box 'free' declares 2 bytes, less than its own 8-byte header");
    broken.truncate(at);
    broken.extend_from_slice(&boxed(b"meta", b"\0\0\0\0\0\0\0\x03free"));
    assert_eq!(said(&broken), "box 'free' declares 3 bytes, less than its own 8-byte header");
}

#[test]
fn a_refused_row_says_why() {
    let tables = flat_defaults();
    let file = minimal_avif(4, 4);
    let mut decoder = AvifDecoder::new(&file[..], &tables).unwrap();
    let short = decoder.read_row(&mut [0; 3]).unwrap_err();
    assert_eq!(short.to_string(), "row buffer is 3 bytes, expected 12");
    // The one byte of the frame is no frame header.
    let empty = decoder.read_row(&mut [0; 12]).unwrap_err();
    assert_eq!(empty.code(), ErrorCode::Malformed);
}
