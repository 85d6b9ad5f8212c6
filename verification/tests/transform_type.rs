//! Transform types.
use otf_pixels_codecs::av1::cdf::CdfTable;
use otf_pixels_codecs::av1::symbol::SymbolDecoder;
use otf_pixels_codecs::av1::transform::{TxSize, TxType};
use otf_pixels_codecs::av1::transform_type::{
    chroma_tx_type, intra_dir, intra_tx_set, is_tx_type_in_set_intra, read_transform_type, IntraTxSet, IntraTxTypeCdfs,
    TX_TYPE_INTRA_INV_SET1,
};

/// A distribution that gives every symbol the same share.
fn flat(symbols: usize) -> Vec<u16> {
    let mut row: Vec<u16> = (1..=symbols).map(|k| (32768 * k / symbols) as u16).collect();
    row.push(0);
    row
}

/// A table of flat distributions: two sizes of seven types, then three of five.
fn flat_types() -> IntraTxTypeCdfs {
    let mut rows = vec![flat(7); 26];
    rows.extend(vec![flat(5); 39]);
    IntraTxTypeCdfs::new(&CdfTable::from_rows(rows))
}

#[test]
fn tx_set_follows_the_size_and_reduced_flag() {
    // Small sizes use the full intra set 1...
    assert_eq!(intra_tx_set(TxSize::Tx4x4, false), IntraTxSet::Set1);
    assert_eq!(intra_tx_set(TxSize::Tx8x8, false), IntraTxSet::Set1);
    // ...16x16 and rectangles with a 16 square drop to set 2...
    assert_eq!(intra_tx_set(TxSize::Tx16x16, false), IntraTxSet::Set2);
    // ...the reduced flag forces set 2...
    assert_eq!(intra_tx_set(TxSize::Tx4x4, true), IntraTxSet::Set2);
    // ...and 32x32 and up are DCT-only.
    assert_eq!(intra_tx_set(TxSize::Tx32x32, false), IntraTxSet::DctOnly);
    assert_eq!(intra_tx_set(TxSize::Tx64x64, false), IntraTxSet::DctOnly);
    assert_eq!(intra_tx_set(TxSize::Tx16x32, false), IntraTxSet::DctOnly);
}

#[test]
fn dct_only_and_zero_qindex_read_no_symbol() {
    // A DctOnly set returns DCT_DCT without touching the decoder.
    let data = [0xFF; 4];
    let mut dec = SymbolDecoder::new(&data, true).unwrap();
    let mut cdfs = flat_types();
    let tt = read_transform_type(
        &mut dec,
        &mut cdfs,
        IntraTxSet::DctOnly,
        TxSize::Tx4x4,
        0,
        true,
    )
    .unwrap();
    assert_eq!(tt, TxType::DctDct);
    // qindex 0 (lossless) also short-circuits even for a real set.
    let tt = read_transform_type(
        &mut dec,
        &mut cdfs,
        IntraTxSet::Set1,
        TxSize::Tx4x4,
        0,
        false,
    )
    .unwrap();
    assert_eq!(tt, TxType::DctDct);
}

#[test]
fn a_read_type_comes_from_the_inversion_table() {
    // With a real set and qindex, a symbol is read and mapped; assert only
    // that the result is one of the set's types (the exact symbol depends on
    // the arithmetic decoder state, which the table maps deterministically).
    let data = [0x80, 0x00, 0x00, 0x00, 0x00, 0x00];
    let mut dec = SymbolDecoder::new(&data, true).unwrap();
    let mut cdfs = flat_types();
    let tt = read_transform_type(
        &mut dec,
        &mut cdfs,
        IntraTxSet::Set1,
        TxSize::Tx4x4,
        0,
        true,
    )
    .unwrap();
    assert!(TX_TYPE_INTRA_INV_SET1.contains(&tt));
}

#[test]
fn intra_dir_uses_the_filter_mapping() {
    assert_eq!(intra_dir(9, None), 9); // plain luma mode
    assert_eq!(intra_dir(9, Some(3)), 6); // filter mode 3 -> D157_PRED
    assert_eq!(intra_dir(9, Some(0)), 0); // filter mode 0 -> DC_PRED
}

#[test]
fn chroma_type_respects_set_membership() {
    // V_PRED (mode 1) -> ADST_DCT, which both intra sets permit (index 1 is
    // set in both membership rows), so it survives in each.
    assert_eq!(chroma_tx_type(1, IntraTxSet::Set1), TxType::AdstDct);
    assert_eq!(chroma_tx_type(1, IntraTxSet::Set2), TxType::AdstDct);
    // DC_PRED (mode 0) -> DCT_DCT, always allowed.
    assert_eq!(chroma_tx_type(0, IntraTxSet::Set1), TxType::DctDct);
    // A DctOnly set is always DCT_DCT.
    assert_eq!(chroma_tx_type(1, IntraTxSet::DctOnly), TxType::DctDct);
}

#[test]
fn set_membership_matches_the_spec_rows() {
    // ADST_ADST is in both intra sets; V_DCT only in set 1; FLIPADST in none.
    assert!(is_tx_type_in_set_intra(IntraTxSet::Set1, TxType::AdstAdst));
    assert!(is_tx_type_in_set_intra(IntraTxSet::Set2, TxType::AdstAdst));
    assert!(is_tx_type_in_set_intra(IntraTxSet::Set1, TxType::VDct));
    assert!(!is_tx_type_in_set_intra(IntraTxSet::Set2, TxType::VDct));
    assert!(!is_tx_type_in_set_intra(
        IntraTxSet::Set1,
        TxType::FlipadstFlipadst
    ));
}
