//! What the codes of the bitstream read back: each is read as the value it was
//! written from.
use super::bits::{align8, bit, bits, le_at, leb128_at, lemma_bits_bound, lemma_bits_concat, ns_at, su_at, uvlc_at, flag_at, zero_run};
use crate::math::{lemma_p2_add, lemma_p2_pos, lemma_p2_values, p2};
use vstd::prelude::*;

verus! {

/// Eight bits from a byte boundary on are the byte there; the first of them are its
/// high ones.
pub proof fn lemma_bits_of_byte(data: Seq<u8>, k: int)
    requires
        0 <= k < data.len(),
    ensures
        bits(data, 8 * k, 8) == data[k],
        bits(data, 8 * k, 4) == data[k] as int / 16,
        bits(data, 8 * k, 1) == data[k] as int / 128,
{
    lemma_p2_values();
    let x = data[k] as int;
    assert forall|i: int| 0 <= i < 8 implies #[trigger] bit(data, 8 * k + i) == (x / p2(7 - i)) % 2 by {
        reveal(bit);
        assert((8 * k + i) / 8 == k && (8 * k + i) % 8 == i);
    }
    assert(bit(data, 8 * k + 0) == (x / 128) % 2);
    assert(bit(data, 8 * k + 1) == (x / 64) % 2);
    assert(bit(data, 8 * k + 2) == (x / 32) % 2);
    assert(bit(data, 8 * k + 3) == (x / 16) % 2);
    assert(bit(data, 8 * k + 4) == (x / 8) % 2);
    assert(bit(data, 8 * k + 5) == (x / 4) % 2);
    assert(bit(data, 8 * k + 6) == (x / 2) % 2);
    assert(bit(data, 8 * k + 7) == x % 2);
    reveal_with_fuel(bits, 9);
    assert(bits(data, 8 * k, 0) == 0);
    assert(bits(data, 8 * k, 1) == x / 128);
    assert(bits(data, 8 * k, 2) == x / 64);
    assert(bits(data, 8 * k, 3) == x / 32);
    assert(bits(data, 8 * k, 4) == x / 16);
    assert(bits(data, 8 * k, 5) == x / 8);
    assert(bits(data, 8 * k, 6) == x / 4);
    assert(bits(data, 8 * k, 7) == x / 2);
    assert(bits(data, 8 * k, 8) == x);
}

/// Sixteen bits from a byte boundary on are two bytes, the high one first.
pub proof fn lemma_bits_of_two_bytes(data: Seq<u8>, k: int)
    requires
        0 <= k,
        k + 1 < data.len(),
    ensures
        bits(data, 8 * k, 16) == 256 * data[k] + data[k + 1],
{
    lemma_p2_values();
    lemma_bits_of_byte(data, k);
    lemma_bits_of_byte(data, k + 1);
    lemma_bits_concat(data, 8 * k, 8, 8);
    assert(bits(data, 8 * k, 8int + 8) == bits(data, 8 * k, 8) * 256 + bits(data, 8 * (k + 1), 8));
}

/// Bytes that are read low byte first count 256 times as much from one to the next.
pub proof fn lemma_low_byte_first(data: Seq<u8>, k: int, n: int)
    requires
        0 <= k,
        1 <= n,
        k + n <= data.len(),
    ensures
        le_at(data, 8 * k, n) == data[k] + 256 * le_at(data, 8 * (k + 1), n - 1),
    decreases n,
{
    lemma_p2_values();
    lemma_bits_of_byte(data, k + n - 1);
    assert(8 * k + 8 * (n - 1) == 8 * (k + n - 1));
    if n == 1 {
        assert(le_at(data, 8 * k, 0) == 0 && le_at(data, 8 * (k + 1), 0) == 0);
        assert(bits(data, 8 * k, 8) * p2(0) == bits(data, 8 * k, 8));
    } else {
        lemma_low_byte_first(data, k, n - 1);
        assert(8 * (k + 1) + 8 * (n - 2) == 8 * (k + n - 1));
        lemma_p2_add(8, 8 * (n - 2));
        assert(p2(8 * (n - 1)) == 256 * p2(8 * (n - 2)));
        let b = bits(data, 8 * (k + n - 1), 8);
        assert(b * (256 * p2(8 * (n - 2))) == 256 * (b * p2(8 * (n - 2)))) by (nonlinear_arith);
    }
}

/// A number that is written as one more than itself, with as many zeros before it as bits
/// after its first, is read back.
pub proof fn lemma_uvlc_reads_back(data: Seq<u8>, pos: int, v: int, z: int)
    requires
        0 <= z < 32,
        p2(z) <= v + 1 < p2(z + 1),
        bits(data, pos, z) == 0,
        bits(data, pos + z, z + 1) == v + 1,
    ensures
        uvlc_at(data, pos) == (v, pos + 2 * z + 1),
{
    lemma_bits_concat(data, pos + z, 1, z);
    lemma_bits_bound(data, pos + z + 1, z);
    lemma_bits_bound(data, pos + z, 1);
    lemma_p2_values();
    lemma_p2_pos(z);
    let one = bits(data, pos + z, 1);
    assert(bits(data, pos + z, 1int + z) == one * p2(z) + bits(data, pos + z + 1, z));
    assert(one == 1) by {
        if one == 0 {
            assert(0 * p2(z) == 0);
        }
    }
    lemma_zero_run(data, pos, z, 0);
}

/// A run of zeros ends at the first one.
proof fn lemma_zero_run(data: Seq<u8>, pos: int, z: int, seen: int)
    requires
        0 <= seen,
        0 <= z,
        seen + z < 32,
        bits(data, pos, z) == 0,
        flag_at(data, pos + z),
    ensures
        zero_run(data, pos, seen) == seen + z,
    decreases z,
{
    if z > 0 {
        lemma_bits_concat(data, pos, 1, z - 1);
        lemma_bits_bound(data, pos, 1);
        lemma_bits_bound(data, pos + 1, z - 1);
        lemma_p2_pos(z - 1);
        let (first, rest) = (bits(data, pos, 1), bits(data, pos + 1, z - 1));
        assert(first == 0 && rest == 0) by (nonlinear_arith)
            requires
                first * p2(z - 1) + rest == 0,
                first >= 0,
                rest >= 0,
                p2(z - 1) >= 1,
        ;
        lemma_zero_run(data, pos + 1, z - 1, seen + 1);
    }
}

/// Whether `v` is written at a position in `n` bytes of seven bits each, the low ones
/// first, every byte but the last marked.
pub open spec fn sevens_at(data: Seq<u8>, pos: int, v: int, n: int) -> bool
    decreases n,
{
    if n <= 1 {
        n == 1 && 0 <= v < 128 && bits(data, pos, 8) == v
    } else {
        v >= 0 && bits(data, pos, 8) == 128 + v % 128 && sevens_at(data, pos + 8, v / 128, n - 1)
    }
}

/// A number that is written in up to eight bytes of seven bits each is read back, with the
/// position behind it.
pub proof fn lemma_leb128_reads_back(data: Seq<u8>, pos: int, v: int, n: int)
    requires
        n <= 8,
        sevens_at(data, pos, v, n),
    ensures
        leb128_at(data, pos, 0) == Some((v, pos + 8 * n)),
{
    lemma_sevens(data, pos, v, n, 0);
    lemma_p2_values();
}

/// Seven bits a byte, from some byte on.
proof fn lemma_sevens(data: Seq<u8>, pos: int, v: int, n: int, i: int)
    requires
        0 <= i,
        i + n <= 8,
        sevens_at(data, pos, v, n),
    ensures
        leb128_at(data, pos, i) == Some((v * p2(7 * i), pos + 8 * n)),
    decreases n,
{
    if n > 1 {
        lemma_sevens(data, pos + 8, v / 128, n - 1, i + 1);
        lemma_p2_values();
        lemma_p2_add(7, 7 * i);
        assert(7 + 7 * i == 7 * (i + 1));
        let (p, q) = (p2(7 * i), p2(7 * (i + 1)));
        assert((v % 128) * p + (v / 128) * q == v * p) by (nonlinear_arith)
            requires
                q == 128 * p,
                v == 128 * (v / 128) + v % 128,
        ;
        assert((128 + v % 128) % 128 == v % 128);
    } else {
        assert(v % 128 == v);
    }
}

/// A signed number that is written modulo the power of two of its bits is read back.
pub proof fn lemma_su_reads_back(data: Seq<u8>, pos: int, v: int, n: int)
    requires
        0 <= n,
        -p2(n) <= v < p2(n),
        bits(data, pos, n + 1) == (if v >= 0 {
            v
        } else {
            p2(n + 1) + v
        }),
    ensures
        su_at(data, pos, n) == v,
{
    assert(p2(n + 1) == 2 * p2(n));
}

/// A number below `n` is read back from one bit fewer than `n` has where it is below what
/// `n` lacks of a power of two, and from as many, raised by what `n` lacks, elsewhere.
pub proof fn lemma_ns_reads_back(data: Seq<u8>, pos: int, v: int, n: int, w: int)
    requires
        1 < n,
        1 <= w,
        p2(w - 1) <= n < p2(w),
        0 <= v < n,
        v < p2(w) - n ==> bits(data, pos, w - 1) == v,
        v >= p2(w) - n ==> bits(data, pos, w) == v + (p2(w) - n),
    ensures
        ns_at(data, pos, n) == (v, pos + if v < p2(w) - n {
            w - 1
        } else {
            w
        }),
{
    super::bits::lemma_log2_unique(n, w - 1);
    if v >= p2(w) - n {
        lemma_bits_concat(data, pos, w - 1, 1);
        lemma_bits_bound(data, pos + w - 1, 1);
        lemma_p2_values();
        let (high, low) = (bits(data, pos, w - 1), bits(data, pos + w - 1, 1));
        assert(bits(data, pos, w - 1 + 1) == high * 2 + low);
    }
}

/// A byte boundary is the first at or behind a position.
pub proof fn lemma_aligned(pos: int)
    ensures
        align8(pos) % 8 == 0,
        pos <= align8(pos) < pos + 8,
{
}

} // verus!
