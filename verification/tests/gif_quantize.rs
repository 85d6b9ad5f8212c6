//! Palettes and quantization.
use otf_pixels_codecs::gif::median_cut::build_palette;
use otf_pixels_codecs::gif::quantize::{quantize, Dither, Palette};
use otf_pixels_codecs::gif::sort::sort;

/// An image with `n` distinct colours, one pixel each.
fn distinct(n: usize) -> Vec<u8> {
    let mut out = Vec::with_capacity(n * 3);
    for i in 0..n {
        out.extend_from_slice(&[(i % 256) as u8, ((i / 256) % 256) as u8, (i % 7) as u8]);
    }
    out
}

#[test]
fn an_image_within_the_palette_size_is_represented_exactly() {
    // Flat-colour art is what GIF is still genuinely used for, and it must
    // round-trip losslessly rather than being approximated.
    let pixels = distinct(40);
    let palette = build_palette(&pixels, 256);
    let indices = quantize(&pixels, 40, &palette, Dither::Off);
    for (index, pixel) in indices.iter().zip(pixels.chunks_exact(3)) {
        let entry = palette.entries()[*index as usize];
        assert_eq!(entry, [pixel[0], pixel[1], pixel[2]], "colour was altered");
    }
}

#[test]
fn a_palette_never_exceeds_the_requested_size() {
    for size in [2_usize, 4, 16, 100, 256] {
        let pixels = distinct(1000);
        let palette = build_palette(&pixels, size);
        assert!(
            palette.len() <= size,
            "asked for {size}, got {}",
            palette.len()
        );
        assert!(!palette.is_empty());
    }
}

#[test]
fn quantization_is_deterministic() {
    let pixels: Vec<u8> = (0..3000).map(|i| ((i * 37) % 251) as u8).collect();
    let first = build_palette(&pixels, 64);
    for _ in 0..8 {
        assert_eq!(build_palette(&pixels, 64).entries(), first.entries(), "palette is not stable");
    }
    let indices = quantize(&pixels, 100, &first, Dither::FloydSteinberg);
    for _ in 0..4 {
        assert_eq!(
            quantize(&pixels, 100, &first, Dither::FloydSteinberg),
            indices,
            "dithering is not stable"
        );
    }
}

#[test]
fn a_gradient_quantizes_closely() {
    // The case 256 colours cannot represent exactly, and therefore the one
    // that shows whether the palette is placed sensibly.
    let mut pixels = Vec::new();
    for i in 0..256_u32 {
        for _ in 0..4 {
            let v = i as u8;
            pixels.extend_from_slice(&[v, v, v]);
        }
    }
    let palette = build_palette(&pixels, 64);
    let indices = quantize(&pixels, 32, &palette, Dither::Off);

    let mut worst = 0_i32;
    for (index, pixel) in indices.iter().zip(pixels.chunks_exact(3)) {
        let entry = palette.entries()[*index as usize];
        worst = worst.max((i32::from(entry[0]) - i32::from(pixel[0])).abs());
    }
    assert!(
        worst <= 8,
        "worst error on a 64-entry grey ramp was {worst}"
    );
}

#[test]
fn dithering_reduces_average_error_on_a_gradient() {
    // The reason dithering is on by default. Per-pixel error rises — that
    // is what diffusion does — but the average over a neighbourhood falls,
    // which is what the eye integrates.
    let width = 64_usize;
    let mut pixels = Vec::new();
    for _y in 0..64 {
        for x in 0..width {
            let v = (x * 255 / width) as u8;
            pixels.extend_from_slice(&[v, v, v]);
        }
    }
    let palette = build_palette(&pixels, 4);

    let mean_error = |dither: Dither| -> f64 {
        let indices = quantize(&pixels, width, &palette, dither);
        // Average over each row, which is what banding is visible against.
        let mut total = 0.0;
        for y in 0..64_usize {
            for block in 0..(width / 8) {
                let mut want = 0.0;
                let mut got = 0.0;
                for x in block * 8..block * 8 + 8 {
                    let index = y * width + x;
                    want += f64::from(pixels[index * 3]);
                    got += f64::from(palette.entries()[indices[index] as usize][0]);
                }
                total += (want - got).abs() / 8.0;
            }
        }
        total
    };

    let dithered = mean_error(Dither::FloydSteinberg);
    let flat = mean_error(Dither::Off);
    assert!(
        dithered < flat,
        "dithering did not reduce block-average error: {dithered} vs {flat}"
    );
}

#[test]
fn a_flat_image_needs_no_dithering_and_gets_none() {
    // When every colour is already in the palette the error is zero, so
    // diffusion has nothing to spread and cannot introduce noise.
    let pixels = vec![77_u8; 300];
    let palette = build_palette(&pixels, 16);
    let indices = quantize(&pixels, 10, &palette, Dither::FloydSteinberg);
    assert!(
        indices.iter().all(|&i| i == indices[0]),
        "dithering introduced noise into a flat image"
    );
}

#[test]
fn an_empty_image_is_not_a_panic() {
    let palette = build_palette(&[], 16);
    assert!(
        !palette.is_empty(),
        "a palette must have at least one entry"
    );
    assert!(quantize(&[], 0, &palette, Dither::FloydSteinberg).is_empty());
}

#[test]
fn code_bits_round_up_to_a_power_of_two() {
    for (count, expected) in [(1, 1), (2, 1), (3, 2), (4, 2), (5, 3), (256, 8)] {
        let palette = Palette::new(vec![[0, 0, 0]; count]);
        assert_eq!(palette.code_bits(), expected, "{count} entries");
        assert_eq!(palette.padded().len(), 1 << expected);
    }
}

#[test]
fn nearest_finds_the_closest_entry() {
    let palette = Palette::new(vec![[0, 0, 0], [255, 255, 255], [255, 0, 0]]);
    assert_eq!(palette.nearest([10, 10, 10]), 0);
    assert_eq!(palette.nearest([250, 250, 250]), 1);
    assert_eq!(palette.nearest([200, 20, 20]), 2);
}

#[test]
fn splitting_always_makes_progress() {
    // A box that splits into itself plus nothing would loop forever. The
    // pathological input is many pixels of one colour and one of another.
    let mut pixels = vec![0_u8; 3 * 1000];
    pixels.extend_from_slice(&[255, 255, 255]);
    let palette = build_palette(&pixels, 256);
    assert!(palette.len() >= 2, "the outlier colour was lost");
}

#[test]
fn few_colours_are_exact_with_dithering_too() {
    let pixels: Vec<u8> = distinct(9).into_iter().cycle().take(3 * 90).collect();
    let palette = build_palette(&pixels, 16);
    assert_eq!(palette.len(), 9);
    let indices = quantize(&pixels, 30, &palette, Dither::FloydSteinberg);
    for (index, pixel) in indices.iter().zip(pixels.chunks_exact(3)) {
        assert_eq!(&palette.entries()[*index as usize][..], pixel);
    }
}

#[test]
fn error_is_spread_to_the_neighbours() {
    // Half way between black and white, the second pixel makes up for the first.
    let palette = Palette::new(vec![[0, 0, 0], [255, 255, 255]]);
    let indices = quantize(&[127; 12], 4, &palette, Dither::FloydSteinberg);
    assert_eq!(indices, [0, 1, 0, 1]);
    assert_eq!(quantize(&[127; 12], 4, &palette, Dither::Off), [0, 0, 0, 0]);
}

#[test]
fn the_first_of_equally_near_entries_is_chosen() {
    let palette = Palette::new(vec![[10, 0, 0], [10, 0, 0], [0, 10, 0]]);
    assert_eq!(palette.nearest([10, 0, 0]), 0);
    assert_eq!(palette.nearest([5, 5, 0]), 0);
}

#[test]
fn sorting_is_by_both_numbers() {
    let items = vec![(3, 1), (1, 2), (3, 0), (2, 9), (1, 1)];
    assert_eq!(sort(&items), vec![(1, 1), (1, 2), (2, 9), (3, 0), (3, 1)]);
}

#[test]
fn a_palette_rises_and_ignores_the_order_of_pixels() {
    for (colours, size) in [(40_usize, 256_usize), (400, 16), (700, 256)] {
        let pixels = distinct(colours);
        let entries = build_palette(&pixels, size).entries().to_vec();
        assert!(entries.windows(2).all(|pair| pair[0] < pair[1]));
        let backwards: Vec<u8> = pixels.chunks_exact(3).rev().flat_map(|pixel| pixel.to_vec()).collect();
        assert_eq!(build_palette(&backwards, size).entries(), &entries[..]);
    }
    let mut few: Vec<[u8; 3]> = distinct(40).chunks_exact(3).map(|p| [p[0], p[1], p[2]]).collect();
    few.sort_unstable();
    assert_eq!(build_palette(&distinct(40), 40).entries(), &few[..]);
}

#[test]
fn every_pixel_gets_an_index_of_the_table() {
    let pixels: Vec<u8> = (0..3 * 7 * 5_usize).map(|k| (k * 37 % 256) as u8).collect();
    let palette = Palette::new(vec![[0, 0, 0], [90, 200, 30], [255, 255, 255]]);
    for dither in [Dither::Off, Dither::FloydSteinberg] {
        let indices = quantize(&pixels, 7, &palette, dither);
        assert_eq!(indices.len(), 35);
        assert!(indices.iter().all(|&index| index < 3));
    }
    let plain = quantize(&pixels, 7, &palette, Dither::Off);
    for (index, pixel) in plain.iter().zip(pixels.chunks_exact(3)) {
        assert_eq!(*index, palette.nearest([i32::from(pixel[0]), i32::from(pixel[1]), i32::from(pixel[2])]));
    }
}
