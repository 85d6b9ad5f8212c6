//! The item table.
use otf_pixels_codecs::avif::boxes::Reader;
use otf_pixels_codecs::avif::meta::{Construction, Extent, ItemData, Meta, URN_ALPHA, URN_ALPHA_LEGACY};
use otf_pixels_codecs::error::{ErrorCode, Outcome};

fn boxed(kind: &[u8; 4], payload: &[u8]) -> Vec<u8> {
    let mut out = Vec::new();
    let total = u32::try_from(8 + payload.len()).unwrap();
    out.extend_from_slice(&total.to_be_bytes());
    out.extend_from_slice(kind);
    out.extend_from_slice(payload);
    out
}

/// An `infe` version 2 entry.
fn infe(id: u16, kind: &[u8; 4], name: &str, hidden: bool) -> Vec<u8> {
    let mut payload = vec![2, 0, 0, if hidden { 1 } else { 0 }];
    payload.extend_from_slice(&id.to_be_bytes());
    payload.extend_from_slice(&[0, 0]);
    payload.extend_from_slice(kind);
    payload.extend_from_slice(name.as_bytes());
    payload.push(0);
    boxed(b"infe", &payload)
}

/// An `iinf` version 0 wrapping the given entries.
fn iinf(entries: &[Vec<u8>]) -> Vec<u8> {
    let mut payload = vec![0, 0, 0, 0];
    payload.extend_from_slice(&u16::try_from(entries.len()).unwrap().to_be_bytes());
    for entry in entries {
        payload.extend_from_slice(entry);
    }
    boxed(b"iinf", &payload)
}

/// An `iloc` version 0 with 32-bit offsets and lengths, one extent each.
fn iloc(rows: &[(u16, u32, u32)]) -> Vec<u8> {
    let mut payload = vec![0, 0, 0, 0];
    payload.push(0x44); // offset_size 4, length_size 4
    payload.push(0x00); // base_offset_size 0, reserved
    payload.extend_from_slice(&u16::try_from(rows.len()).unwrap().to_be_bytes());
    for (id, offset, length) in rows {
        payload.extend_from_slice(&id.to_be_bytes());
        payload.extend_from_slice(&[0, 0]); // data reference index
        payload.extend_from_slice(&1_u16.to_be_bytes()); // extent count
        payload.extend_from_slice(&offset.to_be_bytes());
        payload.extend_from_slice(&length.to_be_bytes());
    }
    boxed(b"iloc", &payload)
}

fn pitm(id: u16) -> Vec<u8> {
    let mut payload = vec![0, 0, 0, 0];
    payload.extend_from_slice(&id.to_be_bytes());
    boxed(b"pitm", &payload)
}

fn meta_box(children: &[Vec<u8>]) -> Vec<u8> {
    let mut payload = vec![0, 0, 0, 0];
    for child in children {
        payload.extend_from_slice(child);
    }
    boxed(b"meta", &payload)
}

fn parse(file: &[u8]) -> Outcome<Meta> {
    let mut reader = Reader::new(file);
    let header = reader.next_box().unwrap().unwrap();
    Meta::parse(reader.payload(&header))
}

#[test]
fn joins_the_type_table_with_the_extent_table() {
    let file = meta_box(&[
        pitm(1),
        iinf(&[infe(1, b"av01", "color", false)]),
        iloc(&[(1, 100, 42)]),
    ]);
    let meta = parse(&file).unwrap();

    assert_eq!(meta.primary, Some(1));
    assert_eq!(meta.items.len(), 1);
    let item = &meta.items[0];
    assert_eq!(item.id, 1);
    assert!(item.is_coded_image());
    assert_eq!(item.name, "color");
    assert!(!item.hidden);
    assert_eq!(item.construction, Construction::File);
    assert_eq!(
        item.extents,
        vec![Extent {
            offset: 100,
            length: 42
        }]
    );
}

/// An item listed in `iinf` but absent from `iloc` has no bytes, and one
/// in `iloc` but not `iinf` has no type. Neither is decodable, so neither
/// survives the join.
#[test]
fn an_item_missing_from_either_table_is_dropped() {
    let file = meta_box(&[
        iinf(&[infe(1, b"av01", "a", false), infe(2, b"av01", "b", false)]),
        iloc(&[(1, 0, 4), (3, 0, 4)]),
    ]);
    let meta = parse(&file).unwrap();
    assert_eq!(meta.items.len(), 1);
    assert_eq!(meta.items[0].id, 1);
}

/// Build a file whose `meta` box is followed by `data`, with `build`
/// given the absolute offset `data` will land at.
///
/// The offset has to be known before the box is built, but the box's
/// length depends only on its shape and not on the offset value, so
/// building it twice settles the circularity.
fn file_with_data(build: impl Fn(u32) -> Vec<u8>, data: &[u8]) -> Vec<u8> {
    let probe = build(0);
    let base = u32::try_from(probe.len()).unwrap();
    let mut file = build(base);
    assert_eq!(file.len(), probe.len(), "the offset changed the box length");
    file.extend_from_slice(data);
    file
}

#[test]
fn resolves_item_data_by_borrowing_a_single_extent() {
    let file = file_with_data(
        |base| meta_box(&[iinf(&[infe(1, b"av01", "", false)]), iloc(&[(1, base, 3)])]),
        &[0xDE, 0xAD, 0xBE],
    );

    let meta = parse(&file).unwrap();
    let data = meta.item_data(&file, &meta.items[0]).unwrap();
    assert_eq!(data.as_slice(), &[0xDE, 0xAD, 0xBE]);
    assert!(matches!(data, ItemData::Borrowed(_)));
}

#[test]
fn concatenates_multiple_extents() {
    // Two extents, two bytes each, with two bytes of filler between them.
    let file = file_with_data(
        |base| {
            let mut payload = vec![0, 0, 0, 0, 0x44, 0x00];
            payload.extend_from_slice(&1_u16.to_be_bytes()); // one item
            payload.extend_from_slice(&1_u16.to_be_bytes()); // item ID 1
            payload.extend_from_slice(&[0, 0]);
            payload.extend_from_slice(&2_u16.to_be_bytes()); // two extents
            payload.extend_from_slice(&base.to_be_bytes());
            payload.extend_from_slice(&2_u32.to_be_bytes());
            payload.extend_from_slice(&(base + 4).to_be_bytes());
            payload.extend_from_slice(&2_u32.to_be_bytes());
            meta_box(&[
                iinf(&[infe(1, b"av01", "", false)]),
                boxed(b"iloc", &payload),
            ])
        },
        &[1, 2, 0xFF, 0xFF, 3, 4],
    );

    let meta = parse(&file).unwrap();
    let data = meta.item_data(&file, &meta.items[0]).unwrap();
    assert_eq!(data.as_slice(), &[1, 2, 3, 4]);
    assert!(matches!(data, ItemData::Owned(_)));
}

#[test]
fn an_extent_outside_the_file_is_rejected() {
    let file = meta_box(&[
        iinf(&[infe(1, b"av01", "", false)]),
        iloc(&[(1, 0, 100_000)]),
    ]);
    let meta = parse(&file).unwrap();
    let error = meta.item_data(&file, &meta.items[0]).unwrap_err();
    assert_eq!(error.code(), ErrorCode::Malformed);
}

/// Extents may repeat, so the sum of their lengths can exceed the file
/// even when each is individually in range. Without the total check, a
/// small file could name an arbitrarily large allocation.
#[test]
fn repeated_extents_cannot_sum_past_the_file() {
    let mut payload = vec![0, 0, 0, 0, 0x44, 0x00];
    payload.extend_from_slice(&1_u16.to_be_bytes());
    payload.extend_from_slice(&1_u16.to_be_bytes());
    payload.extend_from_slice(&[0, 0]);
    payload.extend_from_slice(&64_u16.to_be_bytes()); // 64 extents
    for _ in 0..64 {
        payload.extend_from_slice(&0_u32.to_be_bytes());
        payload.extend_from_slice(&40_u32.to_be_bytes());
    }
    let iloc = boxed(b"iloc", &payload);
    let file = meta_box(&[iinf(&[infe(1, b"av01", "", false)]), iloc]);

    let meta = parse(&file).unwrap();
    let error = meta.item_data(&file, &meta.items[0]).unwrap_err();
    assert_eq!(error.code(), ErrorCode::Malformed);
    assert!(error.to_string().contains("more than the"), "{}", error.to_string());
}

#[test]
fn idat_construction_resolves_against_the_idat_box() {
    // iloc version 1 carries a construction method.
    let mut payload = vec![1, 0, 0, 0, 0x44, 0x00];
    payload.extend_from_slice(&1_u16.to_be_bytes());
    payload.extend_from_slice(&1_u16.to_be_bytes()); // item ID
    payload.extend_from_slice(&1_u16.to_be_bytes()); // construction: idat
    payload.extend_from_slice(&[0, 0]);
    payload.extend_from_slice(&1_u16.to_be_bytes()); // one extent
    payload.extend_from_slice(&2_u32.to_be_bytes()); // offset within idat
    payload.extend_from_slice(&2_u32.to_be_bytes());
    let iloc = boxed(b"iloc", &payload);

    let idat = boxed(b"idat", &[9, 9, 0xC0, 0xDE]);
    let file = meta_box(&[iinf(&[infe(1, b"grid", "", false)]), iloc, idat]);

    let meta = parse(&file).unwrap();
    let data = meta.item_data(&file, &meta.items[0]).unwrap();
    assert_eq!(data.as_slice(), &[0xC0, 0xDE]);
}

#[test]
fn item_relative_construction_is_unsupported_rather_than_guessed() {
    let mut payload = vec![1, 0, 0, 0, 0x44, 0x00];
    payload.extend_from_slice(&1_u16.to_be_bytes());
    payload.extend_from_slice(&1_u16.to_be_bytes());
    payload.extend_from_slice(&2_u16.to_be_bytes()); // construction: item
    payload.extend_from_slice(&[0, 0]);
    payload.extend_from_slice(&1_u16.to_be_bytes());
    payload.extend_from_slice(&0_u32.to_be_bytes());
    payload.extend_from_slice(&1_u32.to_be_bytes());
    let iloc = boxed(b"iloc", &payload);
    let file = meta_box(&[iinf(&[infe(1, b"av01", "", false)]), iloc]);

    let meta = parse(&file).unwrap();
    let error = meta.item_data(&file, &meta.items[0]).unwrap_err();
    assert_eq!(error.code(), ErrorCode::Unsupported);
}

#[test]
fn references_are_read_and_queryable() {
    let mut dimg = vec![];
    dimg.extend_from_slice(&1_u16.to_be_bytes()); // from item 1
    dimg.extend_from_slice(&2_u16.to_be_bytes()); // two targets
    dimg.extend_from_slice(&2_u16.to_be_bytes());
    dimg.extend_from_slice(&3_u16.to_be_bytes());

    let mut payload = vec![0, 0, 0, 0];
    payload.extend_from_slice(&boxed(b"dimg", &dimg));
    let iref = boxed(b"iref", &payload);

    let file = meta_box(&[
        iinf(&[infe(1, b"grid", "", false)]),
        iloc(&[(1, 0, 1)]),
        iref,
    ]);
    let meta = parse(&file).unwrap();
    assert_eq!(meta.referenced(1, b"dimg"), vec![2, 3]);
    assert_eq!(meta.referenced(1, b"auxl"), Vec::<u32>::new());
    assert_eq!(meta.referenced(9, b"dimg"), Vec::<u32>::new());
}

/// An `auxl` item whose auxiliary type is not alpha is a depth or gain
/// map. Treating it as transparency would silently wreck the image.
#[test]
fn only_an_alpha_urn_makes_an_auxiliary_item_the_alpha_plane() {
    fn build(urn: &str) -> Vec<u8> {
        let mut auxl = vec![];
        auxl.extend_from_slice(&2_u16.to_be_bytes()); // from item 2
        auxl.extend_from_slice(&1_u16.to_be_bytes());
        auxl.extend_from_slice(&1_u16.to_be_bytes()); // to item 1
        let mut iref_payload = vec![0, 0, 0, 0];
        iref_payload.extend_from_slice(&boxed(b"auxl", &auxl));

        let mut auxc_payload = vec![0, 0, 0, 0];
        auxc_payload.extend_from_slice(urn.as_bytes());
        auxc_payload.push(0);
        let ipco = boxed(b"auxC", &auxc_payload);
        // Item 2 associates property 1.
        let ipma_payload = vec![0, 0, 0, 0, 0, 0, 0, 1, 0, 2, 1, 0x01];
        let mut iprp = boxed(b"ipco", &ipco);
        iprp.extend_from_slice(&boxed(b"ipma", &ipma_payload));

        meta_box(&[
            pitm(1),
            iinf(&[
                infe(1, b"av01", "color", false),
                infe(2, b"av01", "alpha", true),
            ]),
            iloc(&[(1, 0, 1), (2, 0, 1)]),
            boxed(b"iref", &iref_payload),
            boxed(b"iprp", &iprp),
        ])
    }

    let file = build(URN_ALPHA);
    let meta = parse(&file).unwrap();
    assert_eq!(meta.alpha_item(1).map(|item| item.id), Some(2));

    let file = build(URN_ALPHA_LEGACY);
    let meta = parse(&file).unwrap();
    assert_eq!(meta.alpha_item(1).map(|item| item.id), Some(2));

    let file = build("urn:mpeg:mpegB:cicp:systems:auxiliary:depth");
    let meta = parse(&file).unwrap();
    assert!(
        meta.alpha_item(1).is_none(),
        "a depth map must not be mistaken for an alpha plane"
    );
}

#[test]
fn a_missing_pitm_falls_back_to_the_first_image_item() {
    let file = meta_box(&[iinf(&[infe(4, b"av01", "", false)]), iloc(&[(4, 0, 1)])]);
    let meta = parse(&file).unwrap();
    assert_eq!(meta.primary, None);
    assert_eq!(meta.primary_item().map(|item| item.id), Some(4));
}

#[test]
fn a_huge_declared_item_count_is_rejected_against_the_box_size() {
    let mut payload = vec![0, 0, 0, 0, 0x44, 0x00];
    payload.extend_from_slice(&0xFFFF_u16.to_be_bytes());
    let file = meta_box(&[boxed(b"iloc", &payload)]);
    let error = parse(&file).unwrap_err();
    assert_eq!(error.code(), ErrorCode::Malformed);
    assert!(error.to_string().contains("more than its"), "{}", error.to_string());
}

#[test]
fn an_infe_too_old_to_carry_a_type_is_rejected() {
    let mut payload = vec![1, 0, 0, 0];
    payload.extend_from_slice(&1_u16.to_be_bytes());
    payload.extend_from_slice(&[0, 0]);
    let file = meta_box(&[iinf(&[boxed(b"infe", &payload)])]);
    let error = parse(&file).unwrap_err();
    assert_eq!(error.code(), ErrorCode::Malformed);
    assert!(error.to_string().contains("item type"), "{}", error.to_string());
}

#[test]
fn an_undefined_construction_method_is_rejected() {
    let mut payload = vec![1, 0, 0, 0, 0x44, 0x00];
    payload.extend_from_slice(&1_u16.to_be_bytes());
    payload.extend_from_slice(&1_u16.to_be_bytes());
    payload.extend_from_slice(&7_u16.to_be_bytes()); // no such method
    payload.extend_from_slice(&[0, 0]);
    payload.extend_from_slice(&0_u16.to_be_bytes());
    let file = meta_box(&[boxed(b"iloc", &payload)]);
    let error = parse(&file).unwrap_err();
    assert_eq!(error.code(), ErrorCode::Malformed);
    assert!(error.to_string().contains("construction method"), "{}", error.to_string());
}

#[test]
fn refused_tables_say_what_they_declare() {
    let said = |child: Vec<u8>| parse(&meta_box(&[child])).unwrap_err().to_string();
    assert_eq!(
        said(boxed(b"iinf", &[0, 0, 0, 0, 0xFF, 0xFF])),
        "iinf declares 65535 items, more than its 0 remaining bytes can hold"
    );
    assert_eq!(
        said(iinf(&[boxed(b"infe", &[1, 0, 0, 0, 0, 1, 0, 0])])),
        "infe version 1 cannot carry an item type"
    );
    assert_eq!(
        said(boxed(b"iloc", &[3, 0, 0, 0, 0x44, 0, 0, 0])),
        "iloc version 3 is not one this format defines"
    );
    assert_eq!(
        said(boxed(b"iloc", &[0, 0, 0, 0, 0x44, 0, 0, 9, 0])),
        "iloc declares 9 items, more than its 1 remaining bytes can hold"
    );
    assert_eq!(
        said(boxed(b"iloc", &[1, 0, 0, 0, 0x44, 0, 0, 1, 0, 7, 0xFF, 0xFB, 0, 0])),
        "iloc construction method 11 is not one this format defines"
    );
    assert_eq!(
        said(boxed(b"iloc", &[0, 0, 0, 0, 0x44, 0, 0, 1, 0, 7, 0, 0, 0, 2, 1, 2, 3])),
        "item 7 declares 2 extents, more than its 3 remaining bytes can hold"
    );
    assert_eq!(
        said(boxed(b"iloc", &[0, 0, 0, 0, 0x54, 0, 0, 1, 0, 7, 0, 0, 0, 1, 1, 2, 3, 4, 5, 6, 7, 8, 9])),
        "field width 5 is not one of 0, 4 or 8"
    );
    let mut far = vec![0, 0, 0, 0, 0x40, 0x80, 0, 1, 0, 7, 0, 0];
    far.extend_from_slice(&u64::MAX.to_be_bytes());
    far.extend_from_slice(&[0, 1, 0, 0, 0, 1]);
    assert_eq!(said(boxed(b"iloc", &far)), "item 7 has an extent offset that overflows its base");
    let mut iref = vec![0, 0, 0, 0];
    iref.extend_from_slice(&boxed(b"dimg", &[0, 1, 0, 5, 0, 2]));
    assert_eq!(
        said(boxed(b"iref", &iref)),
        "a 'dimg' reference declares 5 targets, more than its 2 remaining bytes can hold"
    );
    assert_eq!(
        said(boxed(b"pitm", &[0, 0, 0, 0, 1])),
        "a 2-byte read at offset 24 runs past the end of its box, which holds 1"
    );
}

#[test]
fn refused_items_say_which_they_are() {
    let file = meta_box(&[
        iinf(&[infe(9, b"av01", "a", false)]),
        iloc(&[(9, 0, 4)]),
    ]);
    let meta = parse(&file).unwrap();
    let mut item = meta.items[0].clone();
    let said = |item: &otf_pixels_codecs::avif::meta::Item, bytes: &[u8]| meta.item_data(bytes, item).err().unwrap();
    assert_eq!(
        said(&item, &[1, 2]).to_string(),
        "item 9 declares 4 bytes across 1 extents, more than the 2 available"
    );
    item.extents = vec![Extent { offset: 3, length: 2 }];
    assert_eq!(
        said(&item, &[1, 2, 3, 4]).to_string(),
        "item 9 has an extent at 3..5, outside the 4 bytes available"
    );
    item.extents = vec![Extent { offset: u64::MAX, length: 2 }];
    assert_eq!(said(&item, &[1, 2, 3, 4]).to_string(), "item 9's extent overflows");
    // Lengths are added up without wrapping.
    item.extents = vec![Extent { offset: 0, length: u64::MAX }, Extent { offset: 0, length: 2 }];
    assert_eq!(
        said(&item, &[1, 2, 3, 4]).to_string(),
        "item 9 declares 18446744073709551617 bytes across 2 extents, more than the 4 available"
    );
    item.extents = Vec::new();
    assert_eq!(said(&item, &[1]).to_string(), "item 9 has no extents, so it has no data");
    item.construction = Construction::Idat;
    assert_eq!(said(&item, &[1]).to_string(), "item 9 is stored in idat, but the file has no idat box");
    item.construction = Construction::Item;
    let error = said(&item, &[1]);
    assert_eq!(error.code(), ErrorCode::Unsupported);
    assert_eq!(
        error.to_string(),
        "avif: item 9 uses item-relative extent offsets, which this decoder does not resolve"
    );
}
