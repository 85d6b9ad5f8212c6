//! Palette caches and colour contexts.
use otf_pixels_codecs::av1::palette::{color_context, palette_cache};

#[test]
fn cache_merges_and_dedups_ascending() {
    assert_eq!(
        palette_cache(&[10, 20, 30], &[15, 20, 25]),
        vec![10, 15, 20, 25, 30]
    );
    assert_eq!(palette_cache(&[], &[5, 9]), vec![5, 9]);
    assert_eq!(palette_cache(&[1, 2], &[]), vec![1, 2]);
}

#[test]
fn color_context_of_no_neighbours_orders_identity() {
    let (order, ctx) = color_context(None, None, None, 4);
    assert_eq!(order, [0, 1, 2, 3, 4, 5, 6, 7]);
    // All scores zero -> hash 0 -> Palette_Color_Context[0] is a sentinel,
    // clamped to 0.
    assert_eq!(ctx, 0);
}

#[test]
fn a_dominant_neighbour_sorts_to_the_front() {
    // Left and above both index 2 -> score 4; it should lead the order.
    let (order, _ctx) = color_context(Some(2), None, Some(2), 4);
    assert_eq!(order[0], 2);
}

#[test]
fn every_colour_order_is_a_permutation() {
    for left in [None, Some(0_u8), Some(3)] {
        for corner in [None, Some(1_u8), Some(3)] {
            for above in [None, Some(0_u8), Some(2)] {
                let (order, ctx) = color_context(left, corner, above, 4);
                let mut sorted = order;
                sorted.sort_unstable();
                assert_eq!(sorted, [0, 1, 2, 3, 4, 5, 6, 7]);
                assert!(ctx <= 4);
            }
        }
    }
}
