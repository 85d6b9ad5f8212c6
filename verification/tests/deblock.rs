//! The loop filter.
use otf_pixels_codecs::av1::deblock::Deblock;
use otf_pixels_codecs::av1::frame::LoopFilter;
use otf_pixels_codecs::av1::plane::Plane;

const MI_SIZE: usize = 4;

fn lf(level: [u8; 4]) -> LoopFilter {
    LoopFilter {
        level,
        sharpness: 0,
        delta_enabled: true,
        // Default intra ref delta of 1: exercises the strength derivation.
        ref_deltas: [1, 0, 0, 0, -1, -1, -1, -1],
        mode_deltas: [0, 0],
    }
}

/// A perfectly flat region has no edges, so every filter is a no-op (the
/// wide filter has unity DC gain and reproduces a constant exactly).
#[test]
fn a_flat_region_is_left_unchanged() {
    let (w, h) = (16, 16);
    let mut plane = Plane::new(w, h);
    for y in 0..h {
        for x in 0..w {
            plane.set(x, y, 137);
        }
    }
    let before: Vec<u16> = plane.samples().to_vec();
    // One 8x8 transform grid (index 1) everywhere, so tx edges exist at 8.
    let grid = vec![1_u8; (w / MI_SIZE) * (h / MI_SIZE)];
    let mut planes = vec![plane];
    Deblock {
        loop_filter: &lf([20, 20, 20, 20]),
        bit_depth: 8,
        num_planes: 1,
        mi_rows: h / MI_SIZE,
        mi_cols: w / MI_SIZE,
        frame_width: w,
        frame_height: h,
        lf_tx_sizes: std::slice::from_ref(&grid),
    }
    .run(&mut planes);
    assert_eq!(planes[0].row(0), Some(&before[16 * 0..16 * 0 + 16]));
    assert_eq!(planes[0].row(7), Some(&before[16 * 7..16 * 7 + 16]));
    assert_eq!(planes[0].row(8), Some(&before[16 * 8..16 * 8 + 16]));
}

/// With both luma levels zero the whole filter is skipped, even though the
/// intra reference delta would otherwise raise the strength above zero.
#[test]
fn zero_luma_level_skips_filtering() {
    let (w, h) = (16, 16);
    let mut plane = Plane::new(w, h);
    // A hard vertical step at the 8-sample transform edge that the filter
    // would smooth if it ran.
    for y in 0..h {
        for x in 0..w {
            plane.set(x, y, if x < 8 { 40 } else { 200 });
        }
    }
    let before: Vec<u16> = plane.samples().to_vec();
    let grid = vec![1_u8; (w / MI_SIZE) * (h / MI_SIZE)];
    let mut planes = vec![plane];
    Deblock {
        loop_filter: &lf([0, 0, 0, 0]),
        bit_depth: 8,
        num_planes: 1,
        mi_rows: h / MI_SIZE,
        mi_cols: w / MI_SIZE,
        frame_width: w,
        frame_height: h,
        lf_tx_sizes: std::slice::from_ref(&grid),
    }
    .run(&mut planes);
    assert_eq!(planes[0].row(0), Some(&before[16 * 0..16 * 0 + 16]));
}

/// A nonzero level does smooth a hard transform-edge step: the samples
/// either side of the boundary move toward each other.
#[test]
fn a_step_edge_is_smoothed() {
    let (w, h) = (16, 16);
    let mut plane = Plane::new(w, h);
    for y in 0..h {
        for x in 0..w {
            plane.set(x, y, if x < 8 { 100 } else { 140 });
        }
    }
    let grid = vec![1_u8; (w / MI_SIZE) * (h / MI_SIZE)];
    let mut planes = vec![plane];
    Deblock {
        loop_filter: &lf([32, 32, 0, 0]),
        bit_depth: 8,
        num_planes: 1,
        mi_rows: h / MI_SIZE,
        mi_cols: w / MI_SIZE,
        frame_width: w,
        frame_height: h,
        lf_tx_sizes: std::slice::from_ref(&grid),
    }
    .run(&mut planes);
    // The last "left" sample rose and the first "right" sample fell.
    let row = planes[0].row(4).unwrap();
    assert!(row[7] > 100, "left edge sample should rise, got {}", row[7]);
    assert!(row[8] < 140, "right edge sample should fall, got {}", row[8]);
}

#[test]
fn a_chroma_plane_is_filtered_by_its_own_level() {
    let step = || {
        let mut plane = Plane::new(16, 16);
        for y in 0..16 {
            for x in 0..16 {
                plane.set(x, y, if x < 8 { 100 } else { 140 });
            }
        }
        plane
    };
    let mut planes = vec![step(), step(), step()];
    let grids = vec![vec![1_u8; 16], vec![1_u8; 16], vec![1_u8; 16]];
    Deblock {
        loop_filter: &lf([32, 32, 32, 0]),
        bit_depth: 8,
        num_planes: 3,
        mi_rows: 4,
        mi_cols: 4,
        frame_width: 16,
        frame_height: 16,
        lf_tx_sizes: &grids,
    }
    .run(&mut planes);
    assert_ne!(planes[0].samples(), step().samples());
    assert_ne!(planes[1].samples(), step().samples());
    assert_eq!(planes[2].samples(), step().samples());
    assert_ne!(planes[0].samples(), planes[1].samples());
}

#[test]
fn a_large_delta_is_held_to_the_strongest_filter() {
    let stepped = |delta: i32| {
        let mut plane = Plane::new(16, 8);
        for y in 0..8 {
            for x in 0..16 {
                plane.set(x, y, if x < 8 { 100 } else { 104 });
            }
        }
        let mut planes = vec![plane];
        let mut filter = lf([40, 40, 0, 0]);
        filter.ref_deltas[0] = delta;
        Deblock {
            loop_filter: &filter,
            bit_depth: 8,
            num_planes: 1,
            mi_rows: 2,
            mi_cols: 4,
            frame_width: 16,
            frame_height: 8,
            lf_tx_sizes: &[vec![1; 8]],
        }
        .run(&mut planes);
        planes[0].samples().to_vec()
    };
    assert_eq!(stepped(0x3FFF_FFFF), stepped(63));
    assert_eq!(stepped(-0x4000_0000), stepped(-63));
    assert_ne!(stepped(63), stepped(-63));
}
