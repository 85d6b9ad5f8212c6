//! Prediction from the edges of a block.
use otf_pixels_codecs::av1::predict::{predict_intra_4x4, predict_intra_block, IntraMode, Neighbours, PredBlock};
use otf_pixels_codecs::error::ErrorCode;

fn neighbours(above: [i32; 8], left: [i32; 8], corner: i32) -> Neighbours {
    Neighbours {
        above,
        left,
        corner,
        have_above: true,
        have_left: true,
    }
}

#[test]
fn mode_indexing_and_directional_classification() {
    assert_eq!(IntraMode::from_index(0), Some(IntraMode::Dc));
    assert_eq!(IntraMode::from_index(12), Some(IntraMode::Paeth));
    assert_eq!(IntraMode::from_index(13), None);
    assert!(IntraMode::V.is_directional());
    assert!(!IntraMode::Dc.is_directional());
    assert!(!IntraMode::Smooth.is_directional());
    assert!(IntraMode::D45.is_directional());
}

#[test]
fn dc_with_no_neighbours_is_the_midpoint() {
    let n = Neighbours {
        above: [0; 8],
        left: [0; 8],
        corner: 0,
        have_above: false,
        have_left: false,
    };
    let pred = predict_intra_4x4(IntraMode::Dc, &n, 8).unwrap();
    assert_eq!(pred, [[128; 4]; 4]);
}

#[test]
fn dc_averages_both_edges() {
    // Above all 100, left all 60: avg = (400 + 240 + 4) / 8 = 80.
    let n = neighbours([100; 8], [60; 8], 100);
    let pred = predict_intra_4x4(IntraMode::Dc, &n, 8).unwrap();
    assert_eq!(pred, [[80; 4]; 4]);
}

#[test]
fn v_copies_the_above_row_down_each_column() {
    let n = neighbours([10, 20, 30, 40, 0, 0, 0, 0], [99; 8], 5);
    let pred = predict_intra_4x4(IntraMode::V, &n, 8).unwrap();
    for row in &pred {
        assert_eq!(row, &[10, 20, 30, 40]);
    }
}

#[test]
fn h_copies_the_left_column_across_each_row() {
    let n = neighbours([99; 8], [10, 20, 30, 40, 0, 0, 0, 0], 5);
    let pred = predict_intra_4x4(IntraMode::H, &n, 8).unwrap();
    for (i, row) in pred.iter().enumerate() {
        assert!(row.iter().all(|&v| v == [10, 20, 30, 40][i]));
    }
}

#[test]
fn paeth_picks_the_closest_predictor() {
    // Flat above=left=corner=50 -> base=50, all distances 0, picks left=50.
    let n = neighbours([50; 8], [50; 8], 50);
    let pred = predict_intra_4x4(IntraMode::Paeth, &n, 8).unwrap();
    assert_eq!(pred, [[50; 4]; 4]);
}

#[test]
fn smooth_of_a_flat_edge_is_that_value() {
    // All neighbours 128: every weighted combination is 128.
    let n = neighbours([128; 8], [128; 8], 128);
    for mode in [IntraMode::Smooth, IntraMode::SmoothV, IntraMode::SmoothH] {
        let pred = predict_intra_4x4(mode, &n, 8).unwrap();
        assert_eq!(pred, [[128; 4]; 4], "mode {mode:?}");
    }
}

#[test]
fn slanted_directional_modes_are_unsupported_for_now() {
    let n = neighbours([100; 8], [100; 8], 100);
    assert!(predict_intra_4x4(IntraMode::D45, &n, 8).is_err());
}

#[test]
fn dc_averages_both_edges_at_a_rectangular_size() {
    // 8 wide, 4 tall. Above all 100 (8 samples), left all 60 (4 samples):
    // sum = 800 + 240 + ((8+4)>>1) = 1046; avg = 1046 / 12 = 87.
    let above = [100; 8];
    let left = [60; 8];
    let b = PredBlock {
        above: &above,
        left: &left,
        corner: 100,
        have_above: true,
        have_left: true,
        w: 8,
        h: 4,
    };
    let pred = predict_intra_block(IntraMode::Dc, &b, 8).unwrap();
    assert_eq!(pred.len(), 32);
    assert!(pred.iter().all(|&v| v == 87));
}

#[test]
fn smooth_of_a_flat_edge_is_that_value_at_8x8() {
    let above = [128; 8];
    let left = [128; 8];
    for mode in [IntraMode::Smooth, IntraMode::SmoothV, IntraMode::SmoothH] {
        let b = PredBlock {
            above: &above,
            left: &left,
            corner: 128,
            have_above: true,
            have_left: true,
            w: 8,
            h: 8,
        };
        let pred = predict_intra_block(mode, &b, 8).unwrap();
        assert_eq!(pred.len(), 64);
        assert!(pred.iter().all(|&v| v == 128), "mode {mode:?}");
    }
}

#[test]
fn v_copies_the_above_row_at_8x8() {
    let above = [10, 20, 30, 40, 50, 60, 70, 80];
    let left = [0; 8];
    let b = PredBlock {
        above: &above,
        left: &left,
        corner: 0,
        have_above: true,
        have_left: true,
        w: 8,
        h: 8,
    };
    let pred = predict_intra_block(IntraMode::V, &b, 8).unwrap();
    // Every one of the 8 rows repeats the above row.
    let expected: [u16; 8] = [10, 20, 30, 40, 50, 60, 70, 80];
    for row in pred.chunks(8) {
        assert_eq!(row, &expected[..]);
    }
}

#[test]
fn a_slanted_mode_is_refused_as_unsupported() {
    let n = neighbours([100; 8], [100; 8], 100);
    assert_eq!(predict_intra_4x4(IntraMode::D203, &n, 8).unwrap_err().code(), ErrorCode::Unsupported);
}

#[test]
fn one_edge_alone_is_averaged() {
    let n = Neighbours { above: [90; 8], left: [0; 8], corner: 0, have_above: true, have_left: false };
    assert_eq!(predict_intra_4x4(IntraMode::Dc, &n, 8).unwrap(), [[90; 4]; 4]);
    let n = Neighbours { above: [0; 8], left: [31; 8], corner: 0, have_above: false, have_left: true };
    assert_eq!(predict_intra_4x4(IntraMode::Dc, &n, 8).unwrap(), [[31; 4]; 4]);
}

#[test]
fn a_long_block_is_averaged() {
    let above = vec![3_i32; 20_000];
    let left = [9_i32; 4];
    let block = PredBlock {
        above: &above,
        left: &left,
        corner: 0,
        have_above: true,
        have_left: true,
        w: 20_000,
        h: 4,
    };
    let pred = predict_intra_block(IntraMode::Dc, &block, 8).unwrap();
    assert_eq!(pred.len(), 80_000);
    assert!(pred.iter().all(|&sample| sample == 3));
    let empty = PredBlock { w: 0, ..block };
    assert!(predict_intra_block(IntraMode::V, &empty, 8).unwrap().is_empty());
}

#[test]
fn an_average_over_one_edge_alone_needs_only_that_edge() {
    let block = |have_above: bool, have_left: bool, w: usize, h: usize| PredBlock {
        above: &[100; 8],
        left: &[60; 8],
        corner: 0,
        have_above,
        have_left,
        w,
        h,
    };
    // An empty block has no samples, whichever side is empty.
    for (w, h) in [(0, 4), (4, 0)] {
        assert_eq!(predict_intra_block(IntraMode::Dc, &block(true, true, w, h), 8).unwrap(), []);
    }
    assert_eq!(predict_intra_block(IntraMode::Dc, &block(false, true, 0, 4), 8).unwrap(), []);
    assert_eq!(predict_intra_block(IntraMode::Dc, &block(true, false, 4, 0), 8).unwrap(), []);
    assert_eq!(predict_intra_block(IntraMode::Dc, &block(false, false, 0, 0), 8).unwrap(), []);
    assert_eq!(predict_intra_block(IntraMode::Dc, &block(false, true, 1, 2), 8).unwrap(), [60, 60]);
    // Neighbours past the end count as zero.
    assert_eq!(predict_intra_block(IntraMode::Dc, &block(true, false, 16, 1), 8).unwrap(), [50; 16]);
}
