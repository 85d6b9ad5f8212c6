//! The AV1 bitstream reader.
//!
//! AV1 is read most significant bit first. The syntax is written as if the
//! stream never ran out; here reading past the end is a returned error.
//!
//! The model of a read is a pure function of the bytes and a bit position, total
//! by taking every bit past the end to be zero. A parser's result is then the
//! value of that function, and it succeeds exactly when the position it ends at
//! lies within the data.
use crate::error::{ErrorCode, Outcome, PixelsError, fails_saying};
use crate::math::{lemma_p2_add, lemma_p2_mono, lemma_p2_pos, lemma_p2_values, lemma_p2_wide, min, p2, pow2_u32};
use vstd::prelude::*;

verus! {

/// Bit `i` of `data`, counted from the most significant bit of byte 0; zero past
/// the end.
#[verifier::opaque]
pub open spec fn bit(data: Seq<u8>, i: int) -> int {
    if 0 <= i < 8 * data.len() {
        (data[i / 8] as int / p2(7 - i % 8)) % 2
    } else {
        0
    }
}

/// The `n` bits of `data` from bit `pos` on, as an unsigned integer.
#[verifier::opaque]
pub open spec fn bits(data: Seq<u8>, pos: int, n: int) -> int
    decreases n,
{
    if n <= 0 {
        0
    } else {
        2 * bits(data, pos, n - 1) + bit(data, pos + n - 1)
    }
}

/// `n` bits hold a value below `2^n`.
pub proof fn lemma_bits_bound(data: Seq<u8>, pos: int, n: int)
    ensures
        0 <= bits(data, pos, n) < p2(n),
    decreases n,
{
    reveal(bits);
    reveal(bit);
    if n > 0 {
        lemma_bits_bound(data, pos, n - 1);
    }
}

/// Reading `a + b` bits at once is reading `a` bits and then `b` bits.
pub proof fn lemma_bits_concat(data: Seq<u8>, pos: int, a: int, b: int)
    requires
        a >= 0,
        b >= 0,
    ensures
        bits(data, pos, a + b) == bits(data, pos, a) * p2(b) + bits(data, pos + a, b),
    decreases b,
{
    reveal(bits);
    if b > 0 {
        lemma_bits_concat(data, pos, a, b - 1);
        assert(2 * (bits(data, pos, a) * p2(b - 1)) == bits(data, pos, a) * (2 * p2(b - 1)))
            by (nonlinear_arith);
        assert(pos + (a + b) - 1 == (pos + a) + b - 1);
    } else {
        assert(bits(data, pos, a) * 1 == bits(data, pos, a));
    }
}

/// Whether bit `pos` of `data` is set.
pub open spec fn flag_at(data: Seq<u8>, pos: int) -> bool {
    bits(data, pos, 1) != 0
}

/// A flag that is set is part of the data.
pub proof fn lemma_flag_within(data: Seq<u8>, pos: int)
    requires
        flag_at(data, pos),
    ensures
        0 <= pos < 8 * data.len(),
{
    reveal(bits);
    reveal(bit);
    assert(bits(data, pos, 0) == 0);
}

/// `FloorLog2(x)`: the index of the most significant set bit of `x`.
pub open spec fn log2(x: int) -> int
    decreases x,
{
    if x <= 1 {
        0
    } else {
        1 + log2(x / 2)
    }
}

/// `2^log2(x) <= x < 2^(log2(x) + 1)`.
pub proof fn lemma_log2(x: int)
    requires
        x >= 1,
    ensures
        log2(x) >= 0,
        p2(log2(x)) <= x < p2(log2(x) + 1),
    decreases x,
{
    if x > 1 {
        lemma_log2(x / 2);
    }
}

/// The exponent of the power of two at or below `x` is unique.
pub proof fn lemma_log2_unique(x: int, k: int)
    requires
        k >= 0,
        p2(k) <= x < p2(k + 1),
    ensures
        log2(x) == k,
{
    lemma_p2_pos(k);
    lemma_log2(x);
    if log2(x) < k {
        lemma_p2_mono(log2(x) + 1, k);
    } else if log2(x) > k {
        lemma_p2_mono(k + 1, log2(x));
    }
}

/// The number of zero bits from `pos` on before the first one, at most 32.
pub open spec fn zero_run(data: Seq<u8>, pos: int, seen: int) -> int
    decreases 32 - seen,
{
    if seen >= 32 || flag_at(data, pos) {
        seen
    } else {
        zero_run(data, pos + 1, seen + 1)
    }
}

/// `uvlc()`: a run of `z` zeros, a one, then `z` value bits. A run of 32 zeros
/// stands for the largest `u32` and has neither.
pub open spec fn uvlc_at(data: Seq<u8>, pos: int) -> (int, int) {
    let z = zero_run(data, pos, 0);
    if z >= 32 {
        (0xffff_ffff, pos + 32)
    } else {
        (bits(data, pos + z + 1, z) + p2(z) - 1, pos + 2 * z + 1)
    }
}

/// The first `n` bytes from bit `pos` on, low byte first.
pub open spec fn le_at(data: Seq<u8>, pos: int, n: int) -> int
    decreases n,
{
    if n <= 0 {
        0
    } else {
        le_at(data, pos, n - 1) + bits(data, pos + 8 * (n - 1), 8) * p2(8 * (n - 1))
    }
}

/// `leb128()`: seven value bits a byte, low group first, the top bit of each byte
/// saying whether another follows. `None` after eight bytes that all do.
pub open spec fn leb128_at(data: Seq<u8>, pos: int, i: int) -> Option<(int, int)>
    decreases 8 - i,
{
    if i >= 8 {
        None
    } else {
        let byte = bits(data, pos, 8);
        let low = (byte % 128) * p2(7 * i);
        if byte < 128 {
            Some((low, pos + 8))
        } else {
            match leb128_at(data, pos + 8, i + 1) {
                Some((v, end)) => Some((low + v, end)),
                None => None,
            }
        }
    }
}

/// `su(n)`: `n + 1` bits in two's complement.
pub open spec fn su_at(data: Seq<u8>, pos: int, n: int) -> int {
    let v = bits(data, pos, n + 1);
    if v >= p2(n) {
        v - p2(n + 1)
    } else {
        v
    }
}

/// `ns(n)`: a value in `0..n`, the low values taking one bit fewer.
pub open spec fn ns_at(data: Seq<u8>, pos: int, n: int) -> (int, int) {
    if n <= 1 {
        (0, pos)
    } else {
        let w = log2(n) + 1;
        let m = p2(w) - n;
        let v = bits(data, pos, w - 1);
        if v < m {
            (v, pos + w - 1)
        } else {
            (2 * v - m + bits(data, pos + w - 1, 1), pos + w)
        }
    }
}

/// The next byte boundary at or after `pos`.
pub open spec fn align8(pos: int) -> int {
    ((pos + 7) / 8) * 8
}

/// Every bit of `len` bytes has a position that a machine integer can hold.
pub open spec fn bit_addressable(len: nat) -> bool {
    8 * len <= usize::MAX
}

/// The words of a read past the end of the data.
pub open spec fn ended() -> Seq<char> {
    "the AV1 bitstream ended in the middle of a value"@
}

/// The words of a read of more than 32 bits at once.
pub open spec fn too_wide() -> Seq<char> {
    "an AV1 fixed-width read wider than 32 bits is a decoder bug"@
}

/// The words of bits up to a byte boundary that are not all zero.
pub open spec fn pad_fault() -> Seq<char> {
    "an AV1 byte-alignment pad bit was not zero"@
}

/// The words of a base-128 value at `pos` that could not be read, of data of `total`
/// bits.
pub open spec fn leb128_fault(pos: int, total: int) -> Seq<char> {
    if pos % 8 != 0 {
        "an AV1 leb128() read was not byte-aligned"@
    } else if pos + 64 > total {
        ended()
    } else {
        "an AV1 leb128 value ran past its eight-byte maximum"@
    }
}

/// A most-significant-bit-first reader over an AV1 byte slice.
pub struct BitReader<'a> {
    data: &'a [u8],
    pos: usize,
}

impl<'a> BitReader<'a> {
    /// The bytes being read.
    pub closed spec fn bytes(&self) -> Seq<u8> {
        self.data@
    }

    /// The position, in bits from the start.
    pub closed spec fn at(&self) -> int {
        self.pos as int
    }

    /// The number of bits in the data.
    pub open spec fn total(&self) -> int {
        8 * self.bytes().len() as int
    }

    /// The position is within the data, whose length in bits is addressable.
    pub open spec fn wf(&self) -> bool {
        &&& 0 <= self.at() <= self.total()
        &&& bit_addressable(self.bytes().len())
    }

    /// `self` is `before` moved to the bit position `end`.
    pub open spec fn moved(&self, before: &BitReader<'a>, end: int) -> bool {
        &&& self.bytes() == before.bytes()
        &&& self.at() == end
        &&& self.wf()
    }

    /// What a read that ends at `end` does: it succeeds exactly if the data
    /// reaches that far, and otherwise stops at the end of the data.
    pub open spec fn reads_to<T>(&self, before: &BitReader<'a>, end: int, r: Outcome<T>) -> bool {
        if end <= before.total() {
            r is Ok && self.moved(before, end)
        } else {
            fails_saying(r, ErrorCode::Malformed, ended()) && self.moved(before, before.total())
        }
    }

    /// Wrap a byte slice. Reading starts at its first bit.
    pub fn new(data: &'a [u8]) -> (r: Self)
        requires
            bit_addressable(data@.len()),
        ensures
            r.wf(),
            r.bytes() == data@,
            r.at() == 0,
    {
        BitReader { data, pos: 0 }
    }

    /// The current position, in bits from the start.
    pub fn bit_position(&self) -> (r: usize)
        ensures
            r == self.at(),
    {
        self.pos
    }

    /// The total length of the underlying slice, in bits.
    pub fn bit_len(&self) -> (r: usize)
        requires
            self.wf(),
        ensures
            r == self.total(),
    {
        self.data.len() * 8
    }

    /// Bits remaining before the end of the slice.
    pub fn bits_left(&self) -> (r: usize)
        requires
            self.wf(),
        ensures
            r == self.total() - self.at(),
    {
        self.bit_len() - self.pos
    }

    /// Whether the reader sits exactly on a byte boundary.
    pub fn is_byte_aligned(&self) -> (r: bool)
        ensures
            r == (self.at() % 8 == 0),
    {
        self.pos % 8 == 0
    }

    /// The current position in whole bytes.
    pub fn byte_position(&self) -> (r: usize)
        ensures
            r == self.at() / 8,
    {
        self.pos / 8
    }

    /// Read a single bit.
    fn read_bit(&mut self) -> (r: Outcome<u32>)
        requires
            old(self).wf(),
        ensures
            final(self).reads_to(old(self), old(self).at() + 1, r),
            r is Ok ==> r->Ok_0 == bit(old(self).bytes(), old(self).at()),
    {
        let byte = self.pos / 8;
        if byte >= self.data.len() {
            return Err(PixelsError::malformed("the AV1 bitstream ended in the middle of a value"));
        }
        let value = self.data[byte];
        let shift: u32 = 7 - (self.pos % 8) as u32;
        proof {
            reveal(bit);
            lemma_p2_pos(shift as int);
        }
        let v = (value as u32 / pow2_u32(shift)) % 2;
        self.pos = self.pos + 1;
        Ok(v)
    }

    /// `f(n)`: read `n` bits as an unsigned integer, most significant first. A
    /// width above 32 is an error that reads nothing.
    pub fn f(&mut self, n: u32) -> (r: Outcome<u32>)
        requires
            old(self).wf(),
        ensures
            n <= 32 ==> final(self).reads_to(old(self), old(self).at() + n, r),
            n > 32 ==> fails_saying(r, ErrorCode::Malformed, too_wide()) && final(self).moved(old(self), old(self).at()),
            r is Ok ==> r->Ok_0 == bits(old(self).bytes(), old(self).at(), n as int) && r->Ok_0 < p2(n as int),
    {
        if n > 32 {
            return Err(PixelsError::malformed("an AV1 fixed-width read wider than 32 bits is a decoder bug"));
        }
        let mut value: u32 = 0;
        let mut i: u32 = 0;
        proof {
            reveal(bits);
        }
        while i < n
            invariant
                i <= n <= 32,
                self.moved(old(self), old(self).at() + i),
                value == bits(old(self).bytes(), old(self).at(), i as int),
            decreases n - i,
        {
            let b = self.read_bit()?;
            proof {
                reveal(bits);
                lemma_bits_bound(old(self).bytes(), old(self).at(), i + 1);
                lemma_p2_mono(i + 1, 32);
                lemma_p2_values();
            }
            value = 2 * value + b;
            i = i + 1;
        }
        proof {
            lemma_bits_bound(old(self).bytes(), old(self).at(), n as int);
        }
        Ok(value)
    }

    /// Read a boolean flag.
    pub fn flag(&mut self) -> (r: Outcome<bool>)
        requires
            old(self).wf(),
        ensures
            final(self).reads_to(old(self), old(self).at() + 1, r),
            r is Ok ==> r->Ok_0 == flag_at(old(self).bytes(), old(self).at()),
    {
        let v = self.f(1)?;
        Ok(v != 0)
    }

    /// `uvlc()`: an unsigned variable-length code.
    pub fn uvlc(&mut self) -> (r: Outcome<u32>)
        requires
            old(self).wf(),
        ensures
            final(self).reads_to(old(self), uvlc_at(old(self).bytes(), old(self).at()).1, r),
            r is Ok ==> r->Ok_0 == uvlc_at(old(self).bytes(), old(self).at()).0,
    {
        let ghost data = self.bytes();
        let ghost start = self.at();
        let mut leading_zeros: u32 = 0;
        let mut done = false;
        while !done
            invariant
                self.wf(),
                data == old(self).bytes(),
                start == old(self).at(),
                leading_zeros < 32,
                self.moved(old(self), start + leading_zeros + (if done { 1int } else { 0 })),
                zero_run(data, start, 0) == zero_run(data, start + leading_zeros, leading_zeros as int),
                done ==> zero_run(data, start, 0) == leading_zeros,
            decreases 32 - leading_zeros, (if done { 0int } else { 1 }),
        {
            proof {
                lemma_zero_run_reaches(data, start + leading_zeros, leading_zeros as int);
            }
            let one = self.flag()?;
            if one {
                done = true;
            } else {
                leading_zeros = leading_zeros + 1;
                if leading_zeros >= 32 {
                    assert(zero_run(data, start + 32, 32) == 32);
                    return Ok(u32::MAX);
                }
            }
        }
        let value = self.f(leading_zeros)?;
        proof {
            lemma_p2_mono(leading_zeros as int, 31);
            lemma_p2_values();
        }
        Ok(value + (pow2_u32(leading_zeros) - 1))
    }

    /// `le(n)`: an `n`-byte little-endian unsigned integer. The position must be
    /// on a byte boundary.
    pub fn le(&mut self, n: u32) -> (r: Outcome<u64>)
        requires
            old(self).wf(),
            n <= 8,
        ensures
            old(self).at() % 8 == 0 ==> final(self).reads_to(old(self), old(self).at() + 8 * n, r),
            old(self).at() % 8 != 0 ==> fails_saying(
                r,
                ErrorCode::Malformed,
                "an AV1 le() read was not byte-aligned"@,
            ) && final(self).moved(old(self), old(self).at()),
            r is Ok ==> r->Ok_0 == le_at(old(self).bytes(), old(self).at(), n as int),
    {
        if !self.is_byte_aligned() {
            return Err(PixelsError::malformed("an AV1 le() read was not byte-aligned"));
        }
        let mut value: u64 = 0;
        let mut scale: u64 = 1;
        let mut i: u32 = 0;
        while i < n
            invariant
                i <= n <= 8,
                old(self).at() % 8 == 0,
                self.moved(old(self), old(self).at() + 8 * i),
                value == le_at(old(self).bytes(), old(self).at(), i as int),
                value < p2(8 * i),
                i < 8 ==> scale == p2(8 * i),
            decreases n - i,
        {
            let byte = self.f(8)?;
            proof {
                lemma_p2_values();
                lemma_p2_add(8 * i as int, 8);
                lemma_p2_mono(8 * (i + 1), 64);
                lemma_p2_wide();
                assert(byte * p2(8 * i) <= 255 * p2(8 * i)) by (nonlinear_arith)
                    requires
                        byte <= 255,
                        p2(8 * i) >= 0,
                ;
            }
            value = value + (byte as u64) * scale;
            if i < 7 {
                proof {
                    lemma_p2_mono(8 * (i + 1), 56);
                }
                scale = scale * 256;
            }
            i = i + 1;
        }
        Ok(value)
    }

    /// `leb128()`: a little-endian base-128 unsigned integer of at most eight
    /// bytes. The position must be on a byte boundary.
    pub fn leb128(&mut self) -> (r: Outcome<u64>)
        requires
            old(self).wf(),
        ensures
            final(self).bytes() == old(self).bytes(),
            final(self).wf(),
            r is Ok <==> (old(self).at() % 8 == 0 && (leb128_at(old(self).bytes(), old(self).at(), 0) matches Some(
                (_, end),
            ) && end <= old(self).total())),
            r is Ok ==> Some((r->Ok_0 as int, final(self).at())) == leb128_at(
                old(self).bytes(),
                old(self).at(),
                0,
            ),
            r is Ok ==> final(self).at() % 8 == 0,
            r is Err ==> r->Err_0.kind() == ErrorCode::Malformed && final(self).at() == if old(self).at() % 8 == 0 {
                min(old(self).at() + 64, old(self).total())
            } else {
                old(self).at()
            },
            r is Err ==> r->Err_0.words() == leb128_fault(old(self).at(), old(self).total()),
    {
        if !self.is_byte_aligned() {
            return Err(PixelsError::malformed("an AV1 leb128() read was not byte-aligned"));
        }
        let ghost data = self.bytes();
        let ghost start = self.at();
        let mut value: u64 = 0;
        let mut scale: u64 = 1;
        let mut i: u32 = 0;
        while i < 8
            invariant
                i <= 8,
                data == old(self).bytes(),
                start == old(self).at(),
                start % 8 == 0,
                self.moved(old(self), start + 8 * i),
                scale == p2(7 * i),
                value < p2(7 * i),
                leb128_at(data, start, 0) == (match leb128_at(data, start + 8 * i, i as int) {
                    Some((v, end)) => Some((value + v, end)),
                    None => None,
                }),
            decreases 8 - i,
        {
            proof {
                lemma_leb128_reaches(data, start + 8 * i, i as int);
                lemma_p2_values();
                lemma_p2_add(7 * i as int, 7);
                lemma_p2_mono(7 * (i + 1), 56);
                lemma_p2_wide();
            }
            let byte = self.f(8)?;
            let low: u32 = byte % 128;
            assert(low * p2(7 * i) <= 127 * p2(7 * i)) by (nonlinear_arith)
                requires
                    low <= 127,
                    p2(7 * i) >= 0,
            ;
            value = value + (low as u64) * scale;
            if byte < 128 {
                return Ok(value);
            }
            scale = scale * 128;
            i = i + 1;
        }
        Err(PixelsError::malformed("an AV1 leb128 value ran past its eight-byte maximum"))
    }

    /// `su(n)`: a signed integer in `n + 1` bits. A width above 32 is an error that
    /// reads nothing.
    pub fn su(&mut self, n: u32) -> (r: Outcome<i32>)
        requires
            old(self).wf(),
            n < u32::MAX,
        ensures
            n <= 31 ==> final(self).reads_to(old(self), old(self).at() + n + 1, r),
            n > 31 ==> fails_saying(r, ErrorCode::Malformed, too_wide()) && final(self).moved(old(self), old(self).at()),
            r is Ok ==> r->Ok_0 == su_at(old(self).bytes(), old(self).at(), n as int),
            r is Ok ==> -p2(n as int) <= r->Ok_0 < p2(n as int),
    {
        let v = self.f(n + 1)?;
        let half = pow2_u32(n);
        proof {
            lemma_p2_mono(n as int, 31);
            lemma_p2_pos(n as int);
            lemma_p2_values();
        }
        if v >= half {
            Ok(-((half - 1 - (v - half)) as i32) - 1)
        } else {
            Ok(v as i32)
        }
    }

    /// `ns(n)`: an unsigned integer in `0..n`, one bit shorter for the low values.
    pub fn ns(&mut self, n: u32) -> (r: Outcome<u32>)
        requires
            old(self).wf(),
            n < 0x8000_0000,
        ensures
            final(self).reads_to(old(self), ns_at(old(self).bytes(), old(self).at(), n as int).1, r),
            r is Ok ==> r->Ok_0 == ns_at(old(self).bytes(), old(self).at(), n as int).0,
            r is Ok && n > 0 ==> r->Ok_0 < n,
    {
        if n <= 1 {
            return Ok(0);
        }
        let w = floor_log2(n) + 1;
        proof {
            lemma_log2(n as int);
            lemma_p2_values();
            if w > 31 {
                lemma_p2_mono(31, w - 1);
            }
            lemma_p2_mono(w as int, 31);
            lemma_bits_bound(old(self).bytes(), old(self).at() + w - 1, 1);
        }
        let m = pow2_u32(w) - n;
        let v = self.f(w - 1)?;
        if v < m {
            return Ok(v);
        }
        let extra_bit = self.f(1)?;
        Ok(2 * v - m + extra_bit)
    }

    /// Advance to the next byte boundary, requiring the skipped bits to be zero.
    pub fn byte_alignment(&mut self) -> (r: Outcome<()>)
        requires
            old(self).wf(),
        ensures
            final(self).bytes() == old(self).bytes(),
            final(self).wf(),
            r is Ok <==> bits(old(self).bytes(), old(self).at(), align8(old(self).at()) - old(self).at()) == 0,
            r is Ok ==> final(self).at() == align8(old(self).at()),
            r is Err ==> r->Err_0.kind() == ErrorCode::Malformed && old(self).at() < final(self).at() <= align8(
                old(self).at(),
            ) && bits(old(self).bytes(), old(self).at(), final(self).at() - old(self).at()) == 1,
            r is Err ==> r->Err_0.words() == pad_fault(),
    {
        let ghost data = self.bytes();
        let ghost start = self.at();
        let ghost end = align8(start);
        proof {
            reveal(bits);
        }
        while !self.is_byte_aligned()
            invariant
                self.wf(),
                data == old(self).bytes(),
                start == old(self).at(),
                end == align8(start),
                self.bytes() == data,
                start <= self.at() <= end,
                end <= self.total(),
                bits(data, start, self.at() - start) == 0,
            decreases end - self.at(),
        {
            let ghost here = self.at();
            let b = self.f(1)?;
            proof {
                reveal(bits);
            }
            assert(bits(data, here, 1) == 2 * bits(data, here, 0) + bit(data, here));
            assert(bits(data, start, here + 1 - start) == 2 * bits(data, start, here - start) + bit(data, here));
            if b != 0 {
                proof {
                    lemma_bits_concat(data, start, here + 1 - start, end - (here + 1));
                    lemma_bits_bound(data, here + 1, end - (here + 1));
                    lemma_p2_pos(end - (here + 1));
                    lemma_bits_bound(data, here, 1);
                    lemma_p2_values();
                    assert(bits(data, here, 0) == 0);
                    assert(bits(data, start, here + 1 - start) == 1);
                    assert(1 * p2(end - (here + 1)) == p2(end - (here + 1)));
                    assert((here + 1 - start) + (end - (here + 1)) == end - start);
                }
                return Err(PixelsError::malformed("an AV1 byte-alignment pad bit was not zero"));
            }
        }
        Ok(())
    }

    /// Skip `n` bits without interpreting them.
    pub fn skip_bits(&mut self, n: usize) -> (r: Outcome<()>)
        requires
            old(self).wf(),
        ensures
            r is Ok <==> old(self).at() + n <= old(self).total(),
            r is Ok ==> final(self).moved(old(self), old(self).at() + n),
            r is Err ==> fails_saying(
                r,
                ErrorCode::Malformed,
                "an AV1 skip ran past the end of the bitstream"@,
            ) && final(self).moved(old(self), old(self).at()),
    {
        if n > self.bits_left() {
            return Err(PixelsError::malformed("an AV1 skip ran past the end of the bitstream"));
        }
        self.pos = self.pos + n;
        Ok(())
    }
}

/// A reader that never fails: past the end of the data it reads zeros. A header is
/// parsed with it, and turns out malformed if the cursor ends up past the data.
pub struct Cursor<'a> {
    data: &'a [u8],
    pos: usize,
    place: Ghost<int>,
}

impl<'a> Cursor<'a> {
    /// The bytes being read.
    pub closed spec fn bytes(&self) -> Seq<u8> {
        self.data@
    }

    /// The position, in bits from the start; it may lie past the end.
    pub closed spec fn at(&self) -> int {
        self.place@
    }

    /// The machine position is the position as far as one past the end.
    pub closed spec fn wf(&self) -> bool {
        &&& bit_addressable(self.data@.len())
        &&& 0 <= self.place@
        &&& self.pos == (if self.place@ <= 8 * self.data@.len() {
            self.place@
        } else {
            8 * self.data@.len() as int + 1
        })
    }

    /// `self` is `before` moved to the bit position `end`.
    pub open spec fn moved(&self, before: &Cursor<'a>, end: int) -> bool {
        &&& self.wf()
        &&& self.bytes() == before.bytes()
        &&& self.at() == end
    }

    /// Whether every bit read so far lay within the data.
    pub fn within(&self) -> (r: bool)
        requires
            self.wf(),
        ensures
            r == (self.at() <= 8 * self.bytes().len()),
    {
        self.pos <= self.data.len() * 8
    }

    /// Read a single bit.
    fn bit(&mut self) -> (r: u32)
        requires
            old(self).wf(),
        ensures
            final(self).moved(old(self), old(self).at() + 1),
            r == bit(old(self).bytes(), old(self).at()),
            r <= 1,
    {
        proof {
            reveal(bit);
        }
        let total = self.data.len() * 8;
        self.place = Ghost(self.place@ + 1);
        if self.pos >= total {
            self.pos = total + 1;
            0
        } else {
            let value = self.data[self.pos / 8];
            let shift: u32 = 7 - (self.pos % 8) as u32;
            proof {
                lemma_p2_pos(shift as int);
            }
            self.pos = self.pos + 1;
            (value as u32 / pow2_u32(shift)) % 2
        }
    }

    /// Read `n` bits as an unsigned integer, most significant first.
    pub fn f(&mut self, n: u32) -> (r: u32)
        requires
            old(self).wf(),
            n <= 32,
        ensures
            final(self).moved(old(self), old(self).at() + n),
            r == bits(old(self).bytes(), old(self).at(), n as int),
            r < p2(n as int),
    {
        let mut value: u32 = 0;
        let mut i: u32 = 0;
        proof {
            reveal(bits);
        }
        while i < n
            invariant
                i <= n <= 32,
                self.moved(old(self), old(self).at() + i),
                value == bits(old(self).bytes(), old(self).at(), i as int),
            decreases n - i,
        {
            let b = self.bit();
            proof {
                reveal(bits);
                lemma_bits_bound(old(self).bytes(), old(self).at(), i + 1);
                lemma_p2_mono(i + 1, 32);
                lemma_p2_values();
            }
            value = 2 * value + b;
            i = i + 1;
        }
        proof {
            lemma_bits_bound(old(self).bytes(), old(self).at(), n as int);
        }
        value
    }

    /// Read a boolean flag.
    pub fn flag(&mut self) -> (r: bool)
        requires
            old(self).wf(),
        ensures
            final(self).moved(old(self), old(self).at() + 1),
            r == flag_at(old(self).bytes(), old(self).at()),
    {
        self.f(1) != 0
    }

    /// Read an unsigned variable-length code.
    pub fn uvlc(&mut self) -> (r: u32)
        requires
            old(self).wf(),
        ensures
            final(self).moved(old(self), uvlc_at(old(self).bytes(), old(self).at()).1),
            r == uvlc_at(old(self).bytes(), old(self).at()).0,
    {
        let ghost data = self.bytes();
        let ghost start = self.at();
        let mut leading_zeros: u32 = 0;
        while leading_zeros < 32 && !self.flag()
            invariant_except_break
                leading_zeros <= 32,
                data == old(self).bytes(),
                start == old(self).at(),
                self.moved(old(self), start + leading_zeros),
                zero_run(data, start, 0) == zero_run(data, start + leading_zeros, leading_zeros as int),
            ensures
                leading_zeros <= 32,
                leading_zeros == zero_run(data, start, 0),
                self.moved(old(self), start + leading_zeros + (if leading_zeros < 32 {
                    1int
                } else {
                    0
                })),
            decreases 32 - leading_zeros,
        {
            leading_zeros = leading_zeros + 1;
        }
        if leading_zeros >= 32 {
            return u32::MAX;
        }
        let value = self.f(leading_zeros);
        proof {
            lemma_p2_mono(leading_zeros as int, 31);
            lemma_p2_values();
        }
        value + (pow2_u32(leading_zeros) - 1)
    }

    /// Read a signed integer in `n + 1` bits.
    pub fn su(&mut self, n: u32) -> (r: i32)
        requires
            old(self).wf(),
            n < 31,
        ensures
            final(self).moved(old(self), old(self).at() + n + 1),
            r == su_at(old(self).bytes(), old(self).at(), n as int),
            -p2(n as int) <= r < p2(n as int),
    {
        let v = self.f(n + 1);
        let half = pow2_u32(n);
        proof {
            lemma_p2_mono(n as int, 30);
            lemma_p2_values();
        }
        if v >= half {
            ((v - half) as i32) - (half as i32)
        } else {
            v as i32
        }
    }

    /// Read an unsigned integer in `0..n`, one bit shorter for the low values.
    pub fn ns(&mut self, n: u32) -> (r: u32)
        requires
            old(self).wf(),
            n < 0x8000_0000,
        ensures
            final(self).moved(old(self), ns_at(old(self).bytes(), old(self).at(), n as int).1),
            r == ns_at(old(self).bytes(), old(self).at(), n as int).0,
            n > 0 ==> r < n,
    {
        if n <= 1 {
            return 0;
        }
        let w = floor_log2(n) + 1;
        proof {
            lemma_log2(n as int);
            lemma_p2_values();
            if w > 31 {
                lemma_p2_mono(31, w - 1);
            }
            lemma_p2_mono(w as int, 31);
            lemma_bits_bound(old(self).bytes(), old(self).at() + w - 1, 1);
        }
        let m = pow2_u32(w) - n;
        let v = self.f(w - 1);
        if v < m {
            return v;
        }
        let extra_bit = self.f(1);
        2 * v - m + extra_bit
    }
}

impl<'a> BitReader<'a> {
    /// A cursor at this reader's position.
    pub fn cursor(&self) -> (r: Cursor<'a>)
        requires
            self.wf(),
        ensures
            r.wf(),
            r.bytes() == self.bytes(),
            r.at() == self.at(),
    {
        Cursor { data: self.data, pos: self.pos, place: Ghost(self.pos as int) }
    }

    /// Move to where `c` stands, or to the end and fail if that is past the data.
    pub fn commit(&mut self, c: &Cursor<'a>) -> (r: Outcome<()>)
        requires
            old(self).wf(),
            c.wf(),
            c.bytes() == old(self).bytes(),
        ensures
            final(self).reads_to(old(self), c.at(), r),
    {
        if c.within() {
            self.pos = c.pos;
            Ok(())
        } else {
            self.pos = self.data.len() * 8;
            Err(PixelsError::malformed("the AV1 bitstream ended in the middle of a value"))
        }
    }
}

/// A run of zeros stands at least where it was found.
proof fn lemma_zero_run_reaches(data: Seq<u8>, pos: int, seen: int)
    requires
        0 <= seen <= 32,
    ensures
        seen <= zero_run(data, pos, seen) <= 32,
    decreases 32 - seen,
{
    if !(seen >= 32 || flag_at(data, pos)) {
        lemma_zero_run_reaches(data, pos + 1, seen + 1);
    }
}

/// A base-128 value ends past its first byte.
proof fn lemma_leb128_reaches(data: Seq<u8>, pos: int, i: int)
    ensures
        leb128_at(data, pos, i) matches Some((_, end)) ==> end >= pos + 8,
    decreases 8 - i,
{
    if i < 8 {
        lemma_leb128_reaches(data, pos + 8, i + 1);
    }
}

/// `FloorLog2(x)`: the index of the most significant set bit of a non-zero `x`.
pub fn floor_log2(x: u32) -> (r: u32)
    requires
        x > 0,
    ensures
        r == log2(x as int),
        r < 32,
{
    let mut v = x;
    let mut k: u32 = 0;
    while v > 1
        invariant
            v >= 1,
            log2(x as int) == k + log2(v as int),
            v * p2(k as int) <= x,
        decreases v,
    {
        proof {
            lemma_p2_pos(k as int);
            assert((v / 2) * p2(k + 1) <= v * p2(k as int)) by (nonlinear_arith)
                requires
                    p2(k + 1) == 2 * p2(k as int),
                    2 * (v / 2) <= v,
                    p2(k as int) >= 0,
            ;
            if k >= 31 {
                lemma_p2_mono(31, k as int);
                lemma_p2_values();
                assert(v * p2(k as int) >= 2 * 0x8000_0000) by (nonlinear_arith)
                    requires
                        v >= 2,
                        p2(k as int) >= 0x8000_0000,
                ;
            }
        }
        v = v / 2;
        k = k + 1;
    }
    proof {
        if k >= 32 {
            lemma_p2_mono(32, k as int);
            lemma_p2_values();
        }
    }
    k
}

} // verus!
