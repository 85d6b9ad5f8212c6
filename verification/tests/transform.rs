//! Inverse transforms, dequantisation and reconstruction.
use otf_pixels_codecs::av1::butterfly::{brev, cos128, sin128};
use otf_pixels_codecs::av1::transform::{
    add_residual, add_residual_4x4, dequantize, inverse_transform_2d, Dequant, QuantTables, Residual, TxSize, TxType,
};

/// Quantiser tables of which the ends are known.
fn quant_tables() -> QuantTables {
    let mut tables = QuantTables { dc: [[0; 256]; 3], ac: [[0; 256]; 3] };
    tables.dc[0][0] = 4;
    tables.ac[0][0] = 4;
    tables.dc[0][255] = 1336;
    tables.ac[0][255] = 1828;
    tables.dc[1][0] = 4;
    tables.dc[1][255] = 5347;
    tables
}

fn dequant_from(vals: &[(usize, i64)], tw: usize, th: usize) -> Dequant {
    let mut values = vec![0_i64; 32 * 32];
    for &(idx, v) in vals {
        values[idx] = v;
    }
    Dequant::from_raster(&values[..tw * th], tw, th)
}

#[test]
fn cos_and_sin_hit_the_reference_points() {
    assert_eq!(cos128(0), 4096);
    assert_eq!(cos128(64), 0);
    assert_eq!(cos128(128), -4096);
    assert_eq!(sin128(64), 4096);
    assert_eq!(sin128(0), 0);
}

#[test]
fn brev_reverses_bits() {
    assert_eq!(brev(4, 1), 8);
    assert_eq!(brev(4, 0b0011), 0b1100);
    assert_eq!(brev(3, 0b001), 0b100);
}

#[test]
fn identity_identity_scales_a_dc_block() {
    // 8x8 IDTX: each pass multiplies by 2, then colShift = 4 halves twice.
    // A single DC term becomes (dc*2*2) >> 4 spread only at [0][0].
    let dequant = dequant_from(&[(0, 32)], 8, 8);
    let res = inverse_transform_2d(&dequant, TxSize::Tx8x8, TxType::Idtx, false, 8);
    assert_eq!(res.width, 8);
    assert_eq!(res.height, 8);
    // Row pass: T[0]=32*2=64, rowShift=1 -> 32. Col pass: 32*2=64,
    // colShift=4 -> 4. Only column 0, row 0 is non-zero.
    assert_eq!(res.at(0, 0), 4);
    assert_eq!(res.at(0, 1), 0);
    assert_eq!(res.at(1, 0), 0);
}

#[test]
fn dct_of_a_dc_only_block_is_flat() {
    // A DCT with only the DC coefficient set reconstructs a constant
    // block: every sample equal, no spatial variation.
    let dequant = dequant_from(&[(0, 512)], 8, 8);
    let res = inverse_transform_2d(&dequant, TxSize::Tx8x8, TxType::DctDct, false, 8);
    let first = res.at(0, 0);
    assert!(first != 0, "DC should reconstruct a non-zero level");
    for i in 0..8 {
        for j in 0..8 {
            assert_eq!(res.at(i, j), first, "DCT DC block must be flat");
        }
    }
}

#[test]
fn adst_dc_block_is_not_flat_but_symmetric_is_valid() {
    // ADST is not flat for a DC input; just assert it runs and produces
    // a populated 4x4 block without panicking.
    let dequant = dequant_from(&[(0, 256)], 4, 4);
    let res = inverse_transform_2d(&dequant, TxSize::Tx4x4, TxType::AdstAdst, false, 8);
    assert_eq!(res.width, 4);
    assert_eq!(res.height, 4);
}

#[test]
fn lossless_dc_divides_the_dequantiser_back_out() {
    // Lossless is bit-exact because the qindex-0 dequant (times 4) and
    // the WHT's shift = 2 cancel: a DC level of 16 -> dequant 64 -> a
    // flat residual of 4, integrally, with no rounding loss.
    let dequant = dequant_from(&[(0, 64)], 4, 4);
    let res = inverse_transform_2d(&dequant, TxSize::Tx4x4, TxType::DctDct, true, 8);
    for i in 0..4 {
        for j in 0..4 {
            assert_eq!(res.at(i, j), 4, "lossless DC must be flat and integral");
        }
    }
}

#[test]
fn dequantize_applies_dc_and_ac_steps() {
    // level 3 at DC with dc=10, level 2 at pos 1 with ac=5.
    let quant = [3_i32, 2, 0, 0];
    let dq = dequantize(&quant, TxSize::Tx4x4, 10, 5, 8);
    assert_eq!(dq.at(0, 0), 30);
    assert_eq!(dq.at(0, 1), 10);
}

#[test]
fn quant_lookups_hit_known_entries() {
    let tables = quant_tables();
    assert_eq!(tables.dc_q(8, 0), 4);
    assert_eq!(tables.ac_q(8, 0), 4);
    assert_eq!(tables.dc_q(8, 255), 1336);
    assert_eq!(tables.ac_q(8, 255), 1828);
    assert_eq!(tables.dc_q(10, 0), 4);
    assert_eq!(tables.dc_q(10, 255), 5347);
}

/// Reconstruct a lossless 4x4 residual from raw coefficient levels, the way
/// the tile driver does: qindex-0 dequant (`dc == ac == 4`) then the WHT.
fn lossless_residual(quant: &[i32; 16]) -> Residual {
    let dq = dequantize(quant, TxSize::Tx4x4, 4, 4, 8);
    inverse_transform_2d(&dq, TxSize::Tx4x4, TxType::DctDct, true, 8)
}

#[test]
fn all_zero_coefficients_give_a_zero_residual() {
    let residual = lossless_residual(&[0; 16]);
    for i in 0..4 {
        for j in 0..4 {
            assert_eq!(residual.at(i, j), 0);
        }
    }
}

#[test]
fn a_dc_only_coefficient_spreads_evenly() {
    // A single DC level of 8 spreads to a flat block of 2.
    let mut quant = [0_i32; 16];
    quant[0] = 8;
    let residual = lossless_residual(&quant);
    for i in 0..4 {
        for j in 0..4 {
            assert_eq!(residual.at(i, j), 2, "DC residual should be flat");
        }
    }
}

#[test]
fn add_residual_clips_to_the_sample_range() {
    let pred = [[250_u16; 4]; 4];
    // A DC of 400 spreads to a flat +100; 250 + 100 clips to 255.
    let mut hi = [0_i32; 16];
    hi[0] = 400;
    let out = add_residual_4x4(&pred, &lossless_residual(&hi), 8);
    assert_eq!(out[0][0], 255);
    // A DC of -1200 spreads to a flat -300; 250 - 300 clips to 0.
    let mut lo = [0_i32; 16];
    lo[0] = -1200;
    let out = add_residual_4x4(&pred, &lossless_residual(&lo), 8);
    assert_eq!(out[1][1], 0);
}

#[test]
fn a_divisible_dc_reconstructs_integrally() {
    let mut quant = [0_i32; 16];
    quant[0] = 16;
    let residual = lossless_residual(&quant);
    assert_eq!(residual.at(0, 0), 4);
}

#[test]
fn flip_ud_places_the_residual_vertically_mirrored() {
    // With a uniform prediction, adding a residual under FLIPADST_DCT
    // (flipUD, no flipLR) must land Residual[i][j] at output row h-1-i,
    // i.e. the vertical mirror of the no-flip result — regardless of the
    // residual's values. Small residual + mid prediction avoids clipping.
    let pred = [128_u16; 16];
    let mut quant = [0_i32; 16];
    quant[1] = 8;
    quant[4] = -8;
    let res = lossless_residual(&quant);
    let no_flip = add_residual(&pred, &res, TxType::DctDct, 8);
    let flipped = add_residual(&pred, &res, TxType::FlipadstDct, 8);
    for i in 0..4 {
        for j in 0..4 {
            assert_eq!(flipped[(3 - i) * 4 + j], no_flip[i * 4 + j]);
        }
    }
}

#[test]
fn flip_lr_places_the_residual_horizontally_mirrored() {
    let pred = [128_u16; 16];
    let mut quant = [0_i32; 16];
    quant[1] = 8;
    quant[4] = -8;
    let res = lossless_residual(&quant);
    let no_flip = add_residual(&pred, &res, TxType::DctDct, 8);
    // DCT_FLIPADST is flipLR, no flipUD.
    let flipped = add_residual(&pred, &res, TxType::DctFlipadst, 8);
    for i in 0..4 {
        for j in 0..4 {
            assert_eq!(flipped[i * 4 + (3 - j)], no_flip[i * 4 + j]);
        }
    }
}

#[test]
fn a_quantiser_index_is_kept_to_the_table() {
    let tables = quant_tables();
    assert_eq!(tables.dc_q(8, -40), 4);
    assert_eq!(tables.dc_q(8, 300), 1336);
    assert_eq!(tables.ac_q(8, 4000), 1828);
}

#[test]
fn every_size_is_found_by_its_index() {
    for index in 0..19 {
        assert_eq!(TxSize::from_index(index).index(), index);
    }
    assert_eq!(TxSize::from_index(19), TxSize::Tx4x4);
    assert_eq!((TxSize::Tx16x64.width(), TxSize::Tx16x64.height()), (16, 64));
}

#[test]
fn a_size_gives_its_coefficient_parameters() {
    assert_eq!(TxSize::Tx4x4.tx_size_ctx(), 0);
    assert_eq!(TxSize::Tx4x16.tx_size_ctx(), 1);
    assert_eq!(TxSize::Tx64x64.tx_size_ctx(), 4);
    assert_eq!(TxSize::Tx4x4.seg_eob(), 16);
    assert_eq!(TxSize::Tx16x64.seg_eob(), 512);
    assert_eq!(TxSize::Tx32x64.seg_eob(), 1024);
    assert_eq!(TxSize::Tx4x4.eob_multisize(), 0);
    assert_eq!(TxSize::Tx8x16.eob_multisize(), 3);
    assert_eq!(TxSize::Tx64x64.eob_multisize(), 6);
    assert_eq!((TxSize::Tx64x16.adjusted_width(), TxSize::Tx64x16.adjusted_height()), (32, 16));
}

#[test]
fn a_wide_step_keeps_the_low_bits_of_its_product() {
    let dq = dequantize(&[1, -3, 0, 0], TxSize::Tx4x4, 1 << 40, (1 << 40) + 5, 8);
    assert_eq!((dq.at(0, 0), dq.at(0, 1)), (0, -15));
    assert_eq!((dq.at(4, 0), dq.at(0, 4)), (0, 0));
}
