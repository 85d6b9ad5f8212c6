//! Sample planes.
use otf_pixels_codecs::av1::plane::Plane;

#[test]
fn set_and_get_round_trip_within_bounds() {
    let mut p = Plane::new(4, 3);
    p.set(2, 1, 300);
    assert_eq!(p.get(2, 1), Some(300));
    assert_eq!(p.get(0, 0), Some(0));
    assert_eq!(p.get(4, 0), None);
    assert_eq!(p.get(0, 3), None);
}

#[test]
fn out_of_range_writes_are_dropped() {
    let mut p = Plane::new(2, 2);
    p.set(5, 5, 999);
    assert_eq!(p.samples(), &[0, 0, 0, 0]);
}

#[test]
fn clamped_sampling_replicates_the_edge() {
    let mut p = Plane::new(3, 2);
    for y in 0..2 {
        for x in 0..3 {
            p.set(x, y, (10 * y + x) as u16);
        }
    }
    // Inside.
    assert_eq!(p.sample_clamped(1, 1), 11);
    // Left/above of the plane clamps to (0, 0).
    assert_eq!(p.sample_clamped(-4, -9), 0);
    // Past the right/bottom clamps to the far corner (x=2, y=1) = 12.
    assert_eq!(p.sample_clamped(99, 99), 12);
    // Mixed: past the right edge on row 0.
    assert_eq!(p.sample_clamped(99, 0), 2);
}

#[test]
fn row_returns_exactly_the_width() {
    let mut p = Plane::new(3, 2);
    p.set(0, 1, 7);
    p.set(2, 1, 9);
    assert_eq!(p.row(1), Some(&[7, 0, 9][..]));
    assert_eq!(p.row(2), None);
}
