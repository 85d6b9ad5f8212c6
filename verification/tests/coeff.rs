//! Coefficient contexts and blocks.
use otf_pixels_codecs::av1::cdf::CdfTable;
use otf_pixels_codecs::av1::coeff::{
    coeff_base_ctx, coeff_br_ctx, decode_coeffs_4x4, is_coeff_table, read_golomb, CoeffCdfs, COEFF_ROWS, ROW_BASE, ROW_BASE_EOB,
    ROW_DC_SIGN, ROW_EOB_EXTRA, ROW_EOB_PT, SIG_COEF_CONTEXTS,
};
use otf_pixels_codecs::av1::symbol::SymbolDecoder;

/// A distribution that gives every symbol the same share.
fn flat(symbols: usize) -> Vec<u16> {
    let mut row: Vec<u16> = (1..=symbols).map(|k| (32768 * k / symbols) as u16).collect();
    row.push(0);
    row
}

/// A coefficient table of flat distributions.
fn flat_table() -> CdfTable {
    let mut rows = Vec::new();
    for k in 0..COEFF_ROWS {
        let symbols = if k < ROW_EOB_PT {
            2
        } else if k < ROW_EOB_EXTRA {
            5
        } else if k < ROW_BASE_EOB {
            2
        } else if k < ROW_BASE {
            3
        } else if k < ROW_DC_SIGN {
            4
        } else {
            2
        };
        rows.push(flat(symbols));
    }
    CdfTable::from_rows(rows)
}

fn flat_coefficients(qctx: usize) -> CoeffCdfs {
    CoeffCdfs::new(&[flat_table(), flat_table(), flat_table(), flat_table()], qctx)
}

#[test]
fn base_eob_contexts_match_the_spec_buckets() {
    assert_eq!(coeff_base_ctx(&[0; 16], 0, 0, true), SIG_COEF_CONTEXTS - 4);
    assert_eq!(coeff_base_ctx(&[0; 16], 5, 1, true), SIG_COEF_CONTEXTS - 3);
    assert_eq!(coeff_base_ctx(&[0; 16], 5, 3, true), SIG_COEF_CONTEXTS - 2);
    assert_eq!(coeff_base_ctx(&[0; 16], 5, 9, true), SIG_COEF_CONTEXTS - 1);
}

#[test]
fn dc_position_base_context_is_zero() {
    // row == col == 0 short-circuits to context 0 regardless of neighbours.
    assert_eq!(coeff_base_ctx(&[3; 16], 0, 4, false), 0);
}

#[test]
fn base_context_folds_in_neighbour_magnitudes() {
    // pos 5 -> row 1, col 1. Neighbours at (1,2)=pos6, (2,1)=pos9,
    // (2,2)=pos10, (1,3)=pos7, (3,1)=pos13. Put a 3 at pos6 only: mag=3,
    // ctx=(3+1)>>1=2, plus Coeff_Base_Ctx_Offset[1][1]=6 -> 8.
    let mut q = [0_i32; 16];
    q[6] = 3;
    assert_eq!(coeff_base_ctx(&q, 5, 4, false), 8);
}

#[test]
fn br_context_at_dc_is_the_bare_magnitude() {
    // pos 0: neighbours (0,1)=pos1, (1,0)=pos4, (1,1)=pos5. A single 5 at
    // pos1 -> mag=min(5,15)=5, (5+1)>>1=3, pos==0 so ctx=3.
    let mut q = [0_i32; 16];
    q[1] = 5;
    assert_eq!(coeff_br_ctx(&q, 0), 3);
}

#[test]
fn an_all_zero_block_reads_one_symbol_and_stops() {
    // A zero-filled stream keeps SymbolValue high; with the default txb_skip
    // CDF that decodes all_zero = 0 (not skipped) or 1 depending on the CDF,
    // so assert only on the structural invariant: eob 0 => empty levels.
    let data = [0x00; 8];
    let mut dec = SymbolDecoder::new(&data, true).unwrap();
    let mut cdfs = flat_coefficients(0);
    let block = decode_coeffs_4x4(&mut dec, &mut cdfs, 0, 0, 0).unwrap();
    if block.eob == 0 {
        assert_eq!(block.quant, [0; 16]);
        assert_eq!(block.cul_level, 0);
    }
}

#[test]
fn golomb_reads_a_unary_prefix_then_data_bits() {
    // read_bool on an all-0xFF stream returns 1 immediately: length 1, x=1.
    let data = [0xFF; 4];
    let mut dec = SymbolDecoder::new(&data, true).unwrap();
    assert_eq!(read_golomb(&mut dec).unwrap(), 1);
}

#[test]
fn a_table_of_other_rows_is_not_a_coefficient_table() {
    assert!(is_coeff_table(&flat_table()));
    assert!(!is_coeff_table(&CdfTable::from_rows(vec![flat(2); COEFF_ROWS])));
    assert!(!is_coeff_table(&CdfTable::from_rows(vec![flat(2); 3])));
}

#[test]
fn a_context_out_of_range_is_malformed() {
    let data = [0x00; 8];
    let mut dec = SymbolDecoder::new(&data, true).unwrap();
    let mut cdfs = flat_coefficients(0);
    assert!(decode_coeffs_4x4(&mut dec, &mut cdfs, 0, 13, 0).is_err());
}

#[test]
fn a_coded_block_has_levels_up_to_its_end() {
    let data = [0x5A, 0x13, 0xC7, 0x88, 0x21, 0x9F, 0x02, 0x44, 0x6B, 0xD0];
    let mut dec = SymbolDecoder::new(&data, false).unwrap();
    let mut cdfs = flat_coefficients(2);
    let mut coded = 0;
    for _ in 0..6 {
        let block = decode_coeffs_4x4(&mut dec, &mut cdfs, 1, 7, 2).unwrap();
        assert!(block.eob <= 16);
        let sum: i32 = block.quant.iter().map(|v| v.abs()).sum();
        assert_eq!(i32::from(block.cul_level), sum.min(63));
        assert_eq!(block.dc_category, if block.quant[0] < 0 { 1 } else { u8::from(block.quant[0] > 0) * 2 });
        if block.eob > 0 {
            coded += 1;
        }
    }
    assert!(coded > 0);
}
