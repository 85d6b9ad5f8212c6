//! Transform sizes.
use otf_pixels_codecs::av1::cdf::CdfTable;
use otf_pixels_codecs::av1::symbol::SymbolDecoder;
use otf_pixels_codecs::av1::transform::TxSize;
use otf_pixels_codecs::av1::tx_size::{
    block_size_from_4x4, is_depth_table, max_tx_depth, max_tx_size_rect, read_tx_size, split_tx_size, tx_depth_ctx, TxDepthCdfs,
    TxSizeParams, BLOCK_4X4,
};

/// A distribution that gives every symbol the same share.
fn flat(symbols: usize) -> Vec<u16> {
    let mut row: Vec<u16> = (1..=symbols).map(|k| (32768 * k / symbols) as u16).collect();
    row.push(0);
    row
}

fn flat_depths() -> TxDepthCdfs {
    let mut rows = vec![flat(2); 3];
    rows.extend(vec![flat(3); 9]);
    let table = CdfTable::from_rows(rows);
    assert!(is_depth_table(&table));
    TxDepthCdfs::new(&table)
}

#[test]
fn tables_agree_with_the_spec() {
    // 16x16 (block 6) takes a 16x16 transform, splitting to 8x8 then 4x4.
    assert_eq!(max_tx_size_rect(6), TxSize::Tx16x16);
    assert_eq!(max_tx_depth(6), 2);
    assert_eq!(split_tx_size(TxSize::Tx16x16), TxSize::Tx8x8);
    assert_eq!(split_tx_size(TxSize::Tx8x8), TxSize::Tx4x4);
    assert_eq!(split_tx_size(TxSize::Tx4x4), TxSize::Tx4x4);
    // 64x64 caps the depth at 4 and splits square down one level.
    assert_eq!(max_tx_size_rect(12), TxSize::Tx64x64);
    assert_eq!(max_tx_depth(12), 4);
    assert_eq!(split_tx_size(TxSize::Tx64x64), TxSize::Tx32x32);
    // A rectangle splits along its long side first.
    assert_eq!(split_tx_size(TxSize::Tx4x16), TxSize::Tx4x8);
}

#[test]
fn block_size_lookup_round_trips_the_defined_shapes() {
    assert_eq!(block_size_from_4x4(1, 1), Some(0));
    assert_eq!(block_size_from_4x4(4, 4), Some(6));
    assert_eq!(block_size_from_4x4(16, 4), Some(21));
    // 4x32 (w4=1, h4=8) is not a defined AV1 block shape.
    assert_eq!(block_size_from_4x4(1, 8), None);
}

fn params(block: usize, tx_mode_select: bool, lossless: bool) -> TxSizeParams {
    TxSizeParams {
        block,
        tx_mode_select,
        lossless,
        allow_select: true,
        above_w: 0,
        left_h: 0,
    }
}

#[test]
fn lossless_is_always_4x4_and_reads_nothing() {
    let data = [0xFF; 4];
    let mut dec = SymbolDecoder::new(&data, true).unwrap();
    let mut cdfs = flat_depths();
    // Lossless: TX_4X4 regardless of block or mode, no symbol consumed.
    let tx = read_tx_size(&mut dec, &mut cdfs, &params(12, true, true)).unwrap();
    assert_eq!(tx, TxSize::Tx4x4);
}

#[test]
fn without_selection_the_size_is_the_max_rect() {
    let data = [0xFF; 4];
    let mut dec = SymbolDecoder::new(&data, true).unwrap();
    let mut cdfs = flat_depths();
    // TX_MODE_SELECT off: the largest transform, no symbol read.
    let tx = read_tx_size(&mut dec, &mut cdfs, &params(6, false, false)).unwrap();
    assert_eq!(tx, TxSize::Tx16x16);
    // A 4x4 block is always TX_4X4 even with selection on (block == BLOCK_4X4).
    let tx = read_tx_size(&mut dec, &mut cdfs, &params(BLOCK_4X4, true, false)).unwrap();
    assert_eq!(tx, TxSize::Tx4x4);
}

#[test]
fn a_selected_size_is_the_max_rect_or_a_split_of_it() {
    let data = [0x80, 0x00, 0x00, 0x00, 0x00, 0x00];
    let mut dec = SymbolDecoder::new(&data, true).unwrap();
    let mut cdfs = flat_depths();
    // 16x16 with selection: the result is 16x16, 8x8, or 4x4 depending on the
    // depth symbol — every reachable size on the split chain.
    let tx = read_tx_size(&mut dec, &mut cdfs, &params(6, true, false)).unwrap();
    assert!(matches!(
        tx,
        TxSize::Tx16x16 | TxSize::Tx8x8 | TxSize::Tx4x4
    ));
}

#[test]
fn depth_context_counts_the_larger_neighbours() {
    // 16x16 max transform is 16 wide / 16 tall.
    let m = TxSize::Tx16x16;
    assert_eq!(tx_depth_ctx(0, 0, m), 0); // both neighbours smaller/absent
    assert_eq!(tx_depth_ctx(16, 0, m), 1); // above at least as wide
    assert_eq!(tx_depth_ctx(32, 16, m), 2); // both at least as large
}
