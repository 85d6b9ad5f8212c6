//! What the tables of sizes and types say: which transform fits a block, what a split
//! makes of it, and which types it may have.
use super::transform::{dequantized, TxSize, TxType, TX_SIZE_SQR, TX_SIZE_SQR_UP};
use super::butterfly::Kind;
use super::transform_type::{chroma_type, implied_type, in_set, tx_set, type_of, IntraTxSet, TX_TYPE_INTRA_INV_SET1, TX_TYPE_INTRA_INV_SET2};
use super::tx_size::{largest, lemma_sized, sized, split_down, BLOCK_SHAPES};
use crate::math::{lemma_p2_mono, lemma_p2_pos, lemma_p2_values, p2};
use vstd::prelude::*;

verus! {

/// The largest transform of a block is as wide and as high as the block, up to 64 samples.
pub proof fn lemma_largest_fills_the_block(block: int)
    requires
        0 <= block < 22,
    ensures
        ({
            let (w, h) = (4 * BLOCK_SHAPES@[block].0, 4 * BLOCK_SHAPES@[block].1);
            let t = largest(block);
            &&& t.w() == (if w < 64 {
                w
            } else {
                64
            })
            &&& t.h() == (if h < 64 {
                h
            } else {
                64
            })
        }),
{
    lemma_p2_values();
    lemma_all_sized();
}

/// Every size is the one with its own index.
proof fn lemma_all_sized()
    ensures
        sized(0) == TxSize::Tx4x4,
        sized(1) == TxSize::Tx8x8,
        sized(2) == TxSize::Tx16x16,
        sized(3) == TxSize::Tx32x32,
        sized(4) == TxSize::Tx64x64,
        sized(5) == TxSize::Tx4x8,
        sized(6) == TxSize::Tx8x4,
        sized(7) == TxSize::Tx8x16,
        sized(8) == TxSize::Tx16x8,
        sized(9) == TxSize::Tx16x32,
        sized(10) == TxSize::Tx32x16,
        sized(11) == TxSize::Tx32x64,
        sized(12) == TxSize::Tx64x32,
        sized(13) == TxSize::Tx4x16,
        sized(14) == TxSize::Tx16x4,
        sized(15) == TxSize::Tx8x32,
        sized(16) == TxSize::Tx32x8,
        sized(17) == TxSize::Tx16x64,
        sized(18) == TxSize::Tx64x16,
{
    lemma_sized(TxSize::Tx4x4);
    lemma_sized(TxSize::Tx8x8);
    lemma_sized(TxSize::Tx16x16);
    lemma_sized(TxSize::Tx32x32);
    lemma_sized(TxSize::Tx64x64);
    lemma_sized(TxSize::Tx4x8);
    lemma_sized(TxSize::Tx8x4);
    lemma_sized(TxSize::Tx8x16);
    lemma_sized(TxSize::Tx16x8);
    lemma_sized(TxSize::Tx16x32);
    lemma_sized(TxSize::Tx32x16);
    lemma_sized(TxSize::Tx32x64);
    lemma_sized(TxSize::Tx64x32);
    lemma_sized(TxSize::Tx4x16);
    lemma_sized(TxSize::Tx16x4);
    lemma_sized(TxSize::Tx8x32);
    lemma_sized(TxSize::Tx32x8);
    lemma_sized(TxSize::Tx16x64);
    lemma_sized(TxSize::Tx64x16);
}

/// A split halves both sides of a square transform, and the longer side of another; four by
/// four stays.
pub proof fn lemma_split_halves(t: TxSize)
    ensures
        ({
            let s = split_down(t, 1);
            if t.w() == t.h() {
                2 * s.w() == 2 * s.h() && (if t.w() > 4 {
                    2 * s.w() == t.w()
                } else {
                    s == t
                })
            } else if t.w() > t.h() {
                2 * s.w() == t.w() && s.h() == t.h()
            } else {
                s.w() == t.w() && 2 * s.h() == t.h()
            }
        }),
{
    lemma_p2_values();
    lemma_all_sized();
    reveal_with_fuel(split_down, 2);
}

/// The squares inside and around a transform have its shorter and its longer side.
pub proof fn lemma_squares_of_a_size(t: TxSize)
    ensures
        p2(2 + TX_SIZE_SQR@[t.code()] as int) == (if t.w() < t.h() {
            t.w()
        } else {
            t.h()
        }),
        p2(2 + TX_SIZE_SQR_UP@[t.code()] as int) == (if t.w() < t.h() {
            t.h()
        } else {
            t.w()
        }),
{
    lemma_p2_values();
}

/// The levels of a transform are divided by two from 256 samples and a side of 32 on, and
/// by four from 2048 samples on.
pub proof fn lemma_denominators(t: TxSize)
    ensures
        t.w() * t.h() >= 2048 ==> t.denominator() == 4,
        t.w() * t.h() < 512 ==> t.denominator() == 1,
        512 <= t.w() * t.h() < 2048 ==> t.denominator() == 2,
{
    lemma_p2_values();
    let (w, h) = (t.w(), t.h());
    assert(w == 4 || w == 8 || w == 16 || w == 32 || w == 64);
    assert(h == 4 || h == 8 || h == 16 || h == 32 || h == 64);
    assert(w == 4 ==> w * h == 4 * h) by (nonlinear_arith);
    assert(w == 8 ==> w * h == 8 * h) by (nonlinear_arith);
    assert(w == 16 ==> w * h == 16 * h) by (nonlinear_arith);
    assert(w == 32 ==> w * h == 32 * h) by (nonlinear_arith);
    assert(w == 64 ==> w * h == 64 * h) by (nonlinear_arith);
}

/// A transform with a side of 32 or more is a DCT; one with no side below 16, and every other
/// where types are reduced, has the smaller set; the rest has the larger.
pub proof fn lemma_sets_by_side(t: TxSize, reduced: bool)
    ensures
        ({
            let (w, h) = (t.w(), t.h());
            let set = tx_set(t, reduced);
            if w >= 32 || h >= 32 {
                set == IntraTxSet::DctOnly
            } else if reduced || (w >= 16 && h >= 16) {
                set == IntraTxSet::Set2
            } else {
                set == IntraTxSet::Set1
            }
        }),
{
    lemma_p2_values();
}

/// Every symbol of a set stands for a type of its own, which is in the set; the smaller set
/// is part of the larger.
pub proof fn lemma_symbols_of_a_set(set: IntraTxSet, a: int, b: int)
    requires
        set != IntraTxSet::DctOnly,
        0 <= a < b < (if set == IntraTxSet::Set1 {
            7int
        } else {
            5
        }),
    ensures
        type_of(set, a) != type_of(set, b),
        in_set(set, type_of(set, a)),
        in_set(set, type_of(set, b)),
        in_set(IntraTxSet::Set1, type_of(set, a)),
{
    assert(TX_TYPE_INTRA_INV_SET1@[a] == TX_TYPE_INTRA_INV_SET1@[a]);
    assert(TX_TYPE_INTRA_INV_SET1@[b] == TX_TYPE_INTRA_INV_SET1@[b]);
    assert(TX_TYPE_INTRA_INV_SET1@[0] == TxType::Idtx && TX_TYPE_INTRA_INV_SET1@[1] == TxType::DctDct
        && TX_TYPE_INTRA_INV_SET1@[4] == TxType::AdstAdst && TX_TYPE_INTRA_INV_SET1@[5] == TxType::AdstDct
        && TX_TYPE_INTRA_INV_SET1@[6] == TxType::DctAdst);
    if set == IntraTxSet::Set2 {
        assert(TX_TYPE_INTRA_INV_SET2@[a] == type_of(set, a));
        assert(TX_TYPE_INTRA_INV_SET2@[b] == type_of(set, b));
    }
}

/// The type with rows and columns exchanged.
pub open spec fn exchanged(t: TxType) -> TxType {
    match t {
        TxType::AdstDct => TxType::DctAdst,
        TxType::DctAdst => TxType::AdstDct,
        TxType::FlipadstDct => TxType::DctFlipadst,
        TxType::DctFlipadst => TxType::FlipadstDct,
        TxType::AdstFlipadst => TxType::FlipadstAdst,
        TxType::FlipadstAdst => TxType::AdstFlipadst,
        TxType::VDct => TxType::HDct,
        TxType::HDct => TxType::VDct,
        TxType::VAdst => TxType::HAdst,
        TxType::HAdst => TxType::VAdst,
        TxType::VFlipadst => TxType::HFlipadst,
        TxType::HFlipadst => TxType::VFlipadst,
        _ => t,
    }
}

/// Exchanging rows and columns exchanges what a type does along them.
pub proof fn lemma_types_exchange(t: TxType)
    ensures
        exchanged(t).across() == t.down(),
        exchanged(t).down() == t.across(),
        exchanged(t).flips_across() == t.flips_down(),
        exchanged(t).flips_down() == t.flips_across(),
        t.flips_across() ==> t.across() == Kind::Adst,
        t.flips_down() ==> t.down() == Kind::Adst,
{
}

/// The prediction mode on the other side of the diagonal, of those that have one.
pub open spec fn other_mode(mode: int) -> int {
    if mode == 1 {
        2
    } else if mode == 2 {
        1
    } else if mode == 5 {
        6
    } else if mode == 6 {
        5
    } else if mode == 7 {
        8
    } else if mode == 8 {
        7
    } else if mode == 10 {
        11
    } else if mode == 11 {
        10
    } else {
        mode
    }
}

/// A chroma mode and the one over the diagonal imply types with rows and columns exchanged: a
/// mode that copies from above has a rising residual down the columns.
pub proof fn lemma_implied_types_exchange(mode: int)
    requires
        0 <= mode < 14,
    ensures
        implied_type(other_mode(mode)) == exchanged(implied_type(mode)),
        mode == 1 ==> implied_type(mode).down() == Kind::Adst && implied_type(mode).across() == Kind::Dct,
        chroma_type(mode, IntraTxSet::DctOnly) == TxType::DctDct,
        chroma_type(mode, IntraTxSet::Set1) == implied_type(mode),
{
    assert(TX_TYPE_INTRA_INV_SET1@[1] == TxType::DctDct && TX_TYPE_INTRA_INV_SET1@[4] == TxType::AdstAdst
        && TX_TYPE_INTRA_INV_SET1@[5] == TxType::AdstDct && TX_TYPE_INTRA_INV_SET1@[6] == TxType::DctAdst);
}

/// A level is multiplied by its step, cut towards zero by the denominator, as long as the
/// product has no more than 24 bits and the outcome fits; its sign is kept.
pub proof fn lemma_dequantized_is_the_product(level: int, q: int, denominator: int, depth: int)
    requires
        1 <= denominator <= 4,
        8 <= depth <= 12,
        q >= 0,
        -p2(7 + depth) < level * q < p2(7 + depth),
    ensures
        ({
            let v = dequantized(level, q, denominator, depth);
            &&& -denominator < denominator * v - level * q < denominator
            &&& level >= 0 ==> 0 <= denominator * v <= level * q
            &&& v == -dequantized(-level, q, denominator, depth)
        }),
{
    lemma_p2_values();
    lemma_p2_mono(7 + depth, 19);
    lemma_p2_pos(7 + depth);
    let p = level * q;
    assert((-level) * q == -p) by (nonlinear_arith)
        requires
            p == level * q,
    ;
    assert(level >= 0 ==> p >= 0) by (nonlinear_arith)
        requires
            p == level * q,
            q >= 0,
    ;
    let m = if p >= 0 {
        p
    } else {
        -p
    };
    assert(m % 0x100_0000 == m);
    let d = m / denominator;
    assert(0 <= d <= m && denominator * d <= m < denominator * d + denominator) by (nonlinear_arith)
        requires
            d == m / denominator,
            m >= 0,
            denominator >= 1,
    ;
    assert(denominator * (-d) == -(denominator * d)) by (nonlinear_arith);
}

} // verus!
