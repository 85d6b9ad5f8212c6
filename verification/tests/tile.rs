//! Tiles, and whole frames.
use otf_pixels_codecs::av1::bits::BitReader;
use otf_pixels_codecs::av1::block::{block_size_index, floor_log2_usize};
use otf_pixels_codecs::av1::cdf::CdfTable;
use otf_pixels_codecs::av1::frame::FrameHeader;
use otf_pixels_codecs::av1::seq::SequenceHeader;
use otf_pixels_codecs::av1::tile::{chroma_tx_size, decode_still, Defaults};
use otf_pixels_codecs::av1::transform::{QuantTables, TxSize};
use otf_pixels_codecs::error::ErrorCode;

#[test]
fn block_size_indices_match_the_spec_ordering() {
    assert_eq!(block_size_index(1, 1), 0);
    assert_eq!(block_size_index(2, 2), 3);
    assert_eq!(block_size_index(16, 16), 12);
    assert_eq!(block_size_index(16, 4), 21);
}

#[test]
fn floor_log2_of_block_units() {
    assert_eq!(floor_log2_usize(1), 0);
    assert_eq!(floor_log2_usize(2), 1);
    assert_eq!(floor_log2_usize(16), 4);
}

/// A distribution that gives every symbol the same share.
fn flat(symbols: usize) -> Vec<u16> {
    let mut row: Vec<u16> = (1..=symbols).map(|k| (32768 * k / symbols) as u16).collect();
    row.push(0);
    row
}

fn rows_of(families: &[(usize, usize)]) -> Vec<Vec<u16>> {
    let mut rows = Vec::new();
    for &(count, symbols) in families {
        rows.extend(vec![flat(symbols); count]);
    }
    rows
}

fn table(families: &[(usize, usize)]) -> CdfTable {
    CdfTable::from_rows(rows_of(families))
}

fn coefficients() -> CdfTable {
    table(&[(13, 2), (4, 5), (18, 2), (8, 3), (84, 4), (42, 4), (6, 2)])
}

fn mode_rows() -> Vec<Vec<u16>> {
    let mut families = vec![
        (4, 4), (12, 10), (4, 8), (3, 2), (25, 13), (13, 14), (13, 13), (8, 7), (22, 2), (1, 5), (21, 2), (2, 2), (14, 7),
    ];
    for _ in 0..2 {
        for size in 2..=8 {
            families.push((5, size));
        }
    }
    families.extend([(1, 8), (6, 16)]);
    rows_of(&families)
}

fn modes() -> CdfTable {
    CdfTable::from_rows(mode_rows())
}

/// Tables of flat distributions, and quantiser steps of four.
fn flat_defaults() -> Defaults {
    Defaults::new(
        modes(),
        [coefficients(), coefficients(), coefficients(), coefficients()],
        table(&[(3, 2), (9, 3)]),
        QuantTables { dc: [[4; 256]; 3], ac: [[4; 256]; 3] },
    )
    .unwrap()
}

/// Packs bits, most significant first.
struct Bits {
    bits: Vec<u8>,
}

impl Bits {
    fn new() -> Self {
        Self { bits: Vec::new() }
    }

    fn put(&mut self, value: u32, n: u32) -> &mut Self {
        for i in (0..n).rev() {
            self.bits.push(((value >> i) & 1) as u8);
        }
        self
    }

    fn pack(&self) -> Vec<u8> {
        let mut out = vec![0_u8; self.bits.len().div_ceil(8)];
        for (i, &bit) in self.bits.iter().enumerate() {
            out[i / 8] |= bit << (7 - i % 8);
        }
        out
    }
}

/// A sequence header of full chroma and 8 bits, with the identity matrix.
fn sequence(width: u32, height: u32) -> SequenceHeader {
    let mut b = Bits::new();
    b.put(1, 3).put(1, 1).put(1, 1).put(1, 5);
    b.put(15, 4).put(15, 4).put(width - 1, 16).put(height - 1, 16);
    b.put(0, 6);
    b.put(0, 1).put(1, 1).put(1, 8).put(13, 8).put(0, 8);
    b.put(0, 1).put(0, 1);
    let bytes = b.pack();
    SequenceHeader::parse(&mut BitReader::new(&bytes)).unwrap()
}

/// A sequence header of chroma at half size.
fn subsampled(width: u32, height: u32) -> SequenceHeader {
    let mut b = Bits::new();
    b.put(0, 3).put(1, 1).put(1, 1).put(1, 5);
    b.put(15, 4).put(15, 4).put(width - 1, 16).put(height - 1, 16);
    b.put(0, 6);
    b.put(0, 3).put(0, 1).put(0, 2).put(0, 1).put(0, 1);
    let bytes = b.pack();
    SequenceHeader::parse(&mut BitReader::new(&bytes)).unwrap()
}

/// The header of a lossless frame.
fn lossless(seq: &SequenceHeader) -> FrameHeader {
    let mut b = Bits::new();
    b.put(0, 1).put(0, 1).put(0, 1).put(1, 1);
    b.put(0, 8).put(0, 4).put(0, 1).put(0, 1).put(0, 32);
    let bytes = b.pack();
    FrameHeader::parse(&mut BitReader::new(&bytes), seq, 0, 0).unwrap()
}

/// The header of a lossy frame whose loop filter has a level.
fn lossy(seq: &SequenceHeader, level: u32) -> FrameHeader {
    let mut b = Bits::new();
    b.put(0, 1).put(0, 1).put(0, 1).put(1, 1);
    b.put(100, 8).put(0, 4).put(0, 1).put(0, 1);
    b.put(level, 6).put(level, 6);
    if level != 0 {
        b.put(level, 6).put(level, 6);
    }
    b.put(0, 3).put(0, 1).put(0, 1).put(0, 1).put(0, 32);
    let bytes = b.pack();
    FrameHeader::parse(&mut BitReader::new(&bytes), seq, 0, 0).unwrap()
}

const TILE: [u8; 24] = [
    0x9C, 0x31, 0x5E, 0xA0, 0x47, 0x1B, 0xD2, 0x83, 0x66, 0x0F, 0xE8, 0x25, 0x7A, 0xB4, 0x11, 0xC9, 0x3F, 0x50, 0x8D, 0x02,
    0xF6, 0x6E, 0x99, 0x14,
];

#[test]
fn a_lossless_frame_is_decoded_whatever_its_data_hold() {
    let tables = flat_defaults();
    for (width, height) in [(8, 8), (20, 12), (70, 66)] {
        let seq = sequence(width, height);
        let frame = lossless(&seq);
        assert!(frame.coded_lossless);
        for data in [&[][..], &[0x00; 3][..], &[0xFF; 40][..], &TILE[..]] {
            let decoded = decode_still(&seq, &frame, data, &tables).unwrap();
            assert_eq!(decoded.planes.len(), 3);
            for plane in &decoded.planes {
                assert_eq!(plane.width(), 8 * (width as usize).div_ceil(8));
                assert_eq!(plane.height(), 8 * (height as usize).div_ceil(8));
                assert!(plane.samples().iter().all(|&v| v < 256));
            }
        }
    }
}

#[test]
fn decoding_twice_gives_the_same_planes() {
    let tables = flat_defaults();
    let seq = sequence(33, 17);
    let frame = lossless(&seq);
    let first = decode_still(&seq, &frame, &TILE, &tables).unwrap();
    let second = decode_still(&seq, &frame, &TILE, &tables).unwrap();
    for (a, b) in first.planes.iter().zip(&second.planes) {
        assert_eq!(a.samples(), b.samples());
    }
    let other = decode_still(&seq, &frame, &TILE[3..], &tables).unwrap();
    assert!(first.planes.iter().zip(&other.planes).any(|(a, b)| a.samples() != b.samples()));
}

#[test]
fn frames_outside_the_subset_are_unsupported() {
    let tables = flat_defaults();
    let seq = sequence(16, 16);
    let mut frame = lossless(&seq);
    frame.allow_intrabc = true;
    let refused = |seq: &SequenceHeader, frame: &FrameHeader| {
        decode_still(seq, frame, &TILE, &tables).err().map(|e| e.code()) == Some(ErrorCode::Unsupported)
    };
    assert!(refused(&seq, &frame));

    let half = subsampled(16, 16);
    assert!(refused(&half, &lossless(&half)));

    let mut frame = lossy(&seq, 0);
    frame.cdef.uv_sec_strength[0] = 2;
    assert!(refused(&seq, &frame));
    let mut frame = lossy(&seq, 0);
    frame.loop_restoration.uses_lr = true;
    assert!(refused(&seq, &frame));
    let mut frame = lossy(&seq, 0);
    frame.film_grain.apply_grain = true;
    assert!(refused(&seq, &frame));
}

#[test]
fn a_lossy_block_is_decoded_only_without_a_residual() {
    let seq = sequence(8, 8);
    let frame = lossy(&seq, 20);
    assert!(!frame.coded_lossless);
    // Blocks are certain to be skipped.
    let skipping = defaults_with(&[32, 32768, 0]);
    let decoded = decode_still(&seq, &frame, &TILE, &skipping).unwrap();
    assert_eq!(decoded.planes.len(), 3);
    // Blocks are certain to have a residual.
    let coding = defaults_with(&[32700, 32768, 0]);
    let refused = decode_still(&seq, &frame, &[0; 4], &coding).err().unwrap();
    assert_eq!(refused.code(), ErrorCode::Unsupported);
    assert_eq!(refused.to_string(), "avif: the residual of a lossy frame is not decoded");
}

#[test]
fn tables_of_other_rows_are_no_defaults() {
    let quant = || QuantTables { dc: [[4; 256]; 3], ac: [[4; 256]; 3] };
    let four = || [coefficients(), coefficients(), coefficients(), coefficients()];
    assert!(Defaults::new(modes(), four(), table(&[(3, 2), (9, 3)]), quant()).is_some());
    assert!(Defaults::new(coefficients(), four(), table(&[(3, 2), (9, 3)]), quant()).is_none());
    assert!(Defaults::new(modes(), four(), table(&[(12, 2)]), quant()).is_none());
    let odd = [coefficients(), coefficients(), modes(), coefficients()];
    assert!(Defaults::new(modes(), odd, table(&[(3, 2), (9, 3)]), quant()).is_none());
    let mut changed = flat_defaults();
    assert!(changed.fits());
    changed.modes = coefficients();
    assert!(!changed.fits());
}

#[test]
fn chroma_transforms_are_no_larger_than_their_blocks() {
    assert_eq!(chroma_tx_size(0), TxSize::Tx4x4);
    assert_eq!(chroma_tx_size(12), TxSize::Tx32x32);
}

/// The tables, with the distributions of skipped blocks replaced.
fn defaults_with(skip: &[u16; 3]) -> Defaults {
    let mut rows = mode_rows();
    for row in rows.iter_mut().skip(20).take(3) {
        *row = skip.to_vec();
    }
    Defaults::new(
        CdfTable::from_rows(rows),
        [coefficients(), coefficients(), coefficients(), coefficients()],
        table(&[(3, 2), (9, 3)]),
        QuantTables { dc: [[4; 256]; 3], ac: [[4; 256]; 3] },
    )
    .unwrap()
}
