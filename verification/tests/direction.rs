//! Directional prediction and the recursive filter.
use otf_pixels_codecs::av1::direction::{
    mode_base_angle, predict_directional, predict_directional_4x4, predict_filter_intra, predict_filter_intra_4x4, Edge,
};

#[test]
fn vertical_angle_copies_the_above_row() {
    // pAngle 90 with the edge filter off is a plain copy of AboveRow.
    let mut above = Edge::new();
    let mut left = Edge::new();
    for i in 0..8 {
        above.set(i, 10 + i as i32 * 5);
    }
    let pred =
        predict_directional_4x4(90, &mut above, &mut left, true, true, false, false, 4, 4, 8);
    for row in &pred {
        assert_eq!(row, &[10, 15, 20, 25]);
    }
}

#[test]
fn horizontal_angle_copies_the_left_column() {
    let mut above = Edge::new();
    let mut left = Edge::new();
    for i in 0..8 {
        left.set(i, 20 + i as i32 * 3);
    }
    let pred = predict_directional_4x4(
        180, &mut above, &mut left, true, true, false, false, 4, 4, 8,
    );
    for (i, row) in pred.iter().enumerate() {
        assert!(row.iter().all(|&v| v == 20 + i as u16 * 3));
    }
}

#[test]
fn diagonal_45_projects_the_above_row() {
    // pAngle 45, no edge tools: dx = Dr_Intra_Derivative[45] = 64, so
    // idx = (i+1)*64, base = idx>>6 = i+1, shift 0 -> pred[i][j]=above[i+j+1].
    let mut above = Edge::new();
    let mut left = Edge::new();
    for i in 0..8 {
        above.set(i, i as i32);
    }
    let pred =
        predict_directional_4x4(45, &mut above, &mut left, true, true, false, false, 4, 4, 8);
    assert_eq!(pred[0], [1, 2, 3, 4]);
    assert_eq!(pred[1], [2, 3, 4, 5]);
}

#[test]
fn vertical_angle_copies_the_above_row_at_8x8() {
    // pAngle 90 at 8x8 with the edge filter off: every row copies AboveRow.
    let mut above = Edge::new();
    let mut left = Edge::new();
    for i in 0..16 {
        above.set(i, 5 + i as i32);
    }
    let pred = predict_directional(
        90, &mut above, &mut left, 8, 8, true, true, false, false, 8, 8, 8,
    );
    assert_eq!(pred.len(), 64);
    let expected: [u16; 8] = [5, 6, 7, 8, 9, 10, 11, 12];
    for row in pred.chunks(8) {
        assert_eq!(row, &expected[..]);
    }
}

#[test]
fn filter_intra_of_a_flat_edge_is_that_value() {
    // Every tap row of Intra_Filter_Taps sums to 16 (= 1 << SCALE_BITS), so a
    // constant edge reproduces that constant. Check at 4x4 and 8x8.
    let mut above = Edge::new();
    let mut left = Edge::new();
    for i in -1..16 {
        above.set(i, 100);
        left.set(i, 100);
    }
    let flat = predict_filter_intra(2, &above, &left, 8, 8, 8);
    assert_eq!(flat.len(), 64);
    assert!(flat.iter().all(|&v| v == 100));
    // The 4x4 wrapper agrees with the general path.
    let out = predict_filter_intra_4x4(2, &above, &left, 8);
    assert_eq!(out, [[100; 4]; 4]);
}

#[test]
fn diagonal_45_projects_the_above_row_at_8x8() {
    // Same projection as 4x4, extended: pred[i][j] = above[i+j+1] while
    // i+j+1 < maxBaseX = w+h-1 = 15.
    let mut above = Edge::new();
    let mut left = Edge::new();
    for i in 0..16 {
        above.set(i, i as i32);
    }
    let pred = predict_directional(
        45, &mut above, &mut left, 8, 8, true, true, false, false, 8, 8, 8,
    );
    // Row 0: above[1..9]; row 7: above[8..16] but clamped at maxBaseX=15.
    assert_eq!(&pred[0..8], &[1, 2, 3, 4, 5, 6, 7, 8]);
    assert_eq!(pred[7 * 8 + 7], 15); // i+j+1 = 15 == maxBaseX -> above[15]
}

#[test]
fn only_directional_modes_have_an_angle() {
    assert_eq!(mode_base_angle(0), None);
    assert_eq!(mode_base_angle(1), Some(90));
    assert_eq!(mode_base_angle(7), Some(203));
    assert_eq!(mode_base_angle(8), Some(67));
    assert_eq!(mode_base_angle(9), None);
}

#[test]
fn a_flat_edge_stays_flat_at_every_angle() {
    for angle in [45, 67, 113, 135, 157, 203] {
        let mut above = Edge::new();
        let mut left = Edge::new();
        for i in -16..64 {
            above.set(i, 77);
            left.set(i, 77);
        }
        let pred = predict_directional(angle, &mut above, &mut left, 8, 8, true, true, true, true, 8, 8, 8);
        assert!(pred.iter().all(|&v| v == 77), "angle {angle}");
    }
}

#[test]
fn blocks_may_be_empty_or_long() {
    let (mut above, mut left) = (Edge::new(), Edge::new());
    for i in -1..64 {
        above.set(i, 7);
        left.set(i, 7);
    }
    assert!(predict_directional(135, &mut above, &mut left, 0, 4, true, true, false, true, 4, 4, 8).is_empty());
    assert!(predict_filter_intra(0, &above, &left, 0, 4, 8).is_empty());
    let long = predict_directional(90, &mut above, &mut left, 5000, 1, true, true, false, true, 5000, 1, 8);
    assert_eq!((long.len(), long[63], long[4999]), (5000, 7, 0));
    let tall = predict_filter_intra(0, &above, &left, 4, 5000, 8);
    assert_eq!((tall.len(), tall[0]), (20_000, 7));
}
