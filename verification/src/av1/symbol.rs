//! The AV1 multi-symbol arithmetic decoder.
//!
//! A range decoder over 15-bit cumulative distribution functions. AV1 works with
//! the inverse distribution (`32768 - cdf[i]`) and gives every symbol a floor
//! probability, so the range never collapses. Each read optionally adapts the
//! distribution toward the symbol it decoded.
//!
//! The data is taken to be followed by an endless run of zero bits, so a read
//! over a well-formed distribution always succeeds.
use super::bits::{BitReader, bit_addressable, bits, floor_log2, lemma_bits_bound, lemma_log2, log2};
use crate::error::{ErrorCode, Outcome, PixelsError, fails_saying};
use crate::math::{lemma_p2_add, lemma_p2_mono, lemma_p2_pos, lemma_p2_values, max, min, p2, pow2_u32, shr_u32};
use vstd::prelude::*;

verus! {

/// The floor probability every symbol is guaranteed.
pub const EC_MIN_PROB: u32 = 4;

/// A distribution over `cdf.len() - 1` symbols: cumulative frequencies that end at
/// 32768, then an adaptation counter. The first interval's lower end fits a machine
/// integer, with the floor of every symbol above it.
pub open spec fn cdf_ok(cdf: Seq<u16>) -> bool {
    &&& 2 <= cdf.len()
    &&& 65280 + EC_MIN_PROB * (cdf.len() - 2) <= u32::MAX
    &&& cdf[cdf.len() - 2] == 32768
    &&& forall|i: int| 0 <= i < cdf.len() - 1 ==> #[trigger] cdf[i] <= 32768
}

/// Every bit of `len` bytes has a position that a machine integer can hold, and the
/// bits have a signed count.
pub open spec fn symbol_addressable(len: nat) -> bool {
    bit_addressable(len) && 8 * len <= i64::MAX
}

/// The state of a symbol decoder.
#[verifier::ext_equal]
pub struct Sym {
    /// The tile's bytes.
    pub data: Seq<u8>,
    /// The position of the next bit to take in.
    pub pos: int,
    /// The position within the current range.
    pub value: int,
    /// The current range, in `2^15..2^16`.
    pub range: int,
    /// Real bits still available; negative inside the implied zeros.
    pub max_bits: int,
}

impl Sym {
    /// The value lies within a normalised range, and the bits still to be taken
    /// in are those that are available.
    pub open spec fn wf(self) -> bool {
        &&& 32768 <= self.range < 65536
        &&& 0 <= self.value < self.range
        &&& 0 <= self.pos
        &&& 8 * self.data.len() - self.pos == max(self.max_bits, 0)
        &&& symbol_addressable(self.data.len())
        &&& i64::MIN <= self.max_bits
    }
}

/// The state a decoder starts in.
pub open spec fn start(data: Seq<u8>) -> Sym {
    let n = min(8 * data.len() as int, 15);
    Sym {
        data,
        pos: n,
        value: 32767 - bits(data, 0, n) * p2(15 - n),
        range: 32768,
        max_bits: 8 * data.len() - 15,
    }
}

/// The lower end of symbol `k`'s interval within `range`.
pub open spec fn split(range: int, cdf: Seq<u16>, k: int) -> int {
    ((range / 256) * ((32768 - cdf[k]) / 64)) / 2 + EC_MIN_PROB * (cdf.len() - 2 - k)
}

/// The first symbol at or after `k` whose interval starts at or below `value`.
pub open spec fn locate(range: int, value: int, cdf: Seq<u16>, k: int) -> int
    decreases cdf.len() - k,
{
    if k >= cdf.len() - 2 || value >= split(range, cdf, k) {
        k
    } else {
        locate(range, value, cdf, k + 1)
    }
}

/// Bring the range back into `2^15..2^16`, taking in as many bits as that shifts
/// out.
pub open spec fn renormalized(s: Sym) -> Sym {
    let shift = 15 - log2(s.range);
    let n = min(shift, max(s.max_bits, 0));
    Sym {
        data: s.data,
        pos: s.pos + n,
        value: (s.value + 1) * p2(shift) - 1 - bits(s.data, s.pos, n) * p2(shift - n),
        range: s.range * p2(shift),
        max_bits: max(s.max_bits - shift, i64::MIN as int),
    }
}

/// The symbol that `s` holds next under `cdf`, and the state after it.
#[verifier::opaque]
pub open spec fn decode(s: Sym, cdf: Seq<u16>) -> (int, Sym) {
    let k = locate(s.range, s.value, cdf, 0);
    let cur = split(s.range, cdf, k);
    let prev = if k == 0 {
        s.range
    } else {
        split(s.range, cdf, k - 1)
    };
    (k, renormalized(Sym { range: prev - cur, value: s.value - cur, ..s }))
}

/// How fast a distribution with this many symbols and this counter adapts.
pub open spec fn adapt_rate(cdf: Seq<u16>) -> int {
    let n = cdf.len() - 1;
    let count = cdf[n];
    3 + (if count > 15 {
        1int
    } else {
        0
    }) + (if count > 31 {
        1int
    } else {
        0
    }) + min(log2(n), 2)
}

/// One cumulative frequency moved toward 0 below the symbol, toward 32768 from it
/// on.
pub open spec fn adapt_entry(c: int, above: bool, rate: int) -> int {
    if above {
        c + (32768 - c) / p2(rate)
    } else {
        c - c / p2(rate)
    }
}

/// `cdf` adapted toward `symbol`: every frequency but the last moves, and the
/// counter rises up to 32.
pub open spec fn adapted(cdf: Seq<u16>, symbol: int) -> Seq<u16> {
    let n = cdf.len() - 1;
    Seq::new(
        cdf.len(),
        |i: int|
            if i < n - 1 {
                adapt_entry(cdf[i] as int, i >= symbol, adapt_rate(cdf)) as u16
            } else if i == n && cdf[i] < 32 {
                (cdf[i] + 1) as u16
            } else {
                cdf[i]
            },
    )
}

/// An adapted frequency stays a frequency.
proof fn lemma_adapt_entry(c: int, above: bool, rate: int)
    requires
        0 <= c <= 32768,
        rate >= 0,
    ensures
        0 <= adapt_entry(c, above, rate) <= 32768,
{
    lemma_p2_pos(rate);
    crate::math::lemma_quotient_bound(c, p2(rate));
    crate::math::lemma_quotient_bound(32768 - c, p2(rate));
}

/// Adapting a well-formed distribution leaves one of the same size.
pub proof fn lemma_adapted_ok(cdf: Seq<u16>, symbol: int)
    requires
        cdf_ok(cdf),
    ensures
        cdf_ok(adapted(cdf, symbol)),
        adapted(cdf, symbol).len() == cdf.len(),
{
    lemma_log2(cdf.len() - 1);
    assert forall|i: int| 0 <= i < cdf.len() - 1 implies #[trigger] adapted(cdf, symbol)[i] <= 32768 by {
        lemma_adapt_entry(cdf[i] as int, i >= symbol, adapt_rate(cdf));
    }
}

/// The located symbol exists, its interval holds the value, and it follows `k`.
pub proof fn lemma_locate(range: int, value: int, cdf: Seq<u16>, k: int)
    requires
        cdf_ok(cdf),
        0 <= k < cdf.len() - 1,
        value >= 0,
    ensures
        k <= locate(range, value, cdf, k) < cdf.len() - 1,
        value >= split(range, cdf, locate(range, value, cdf, k)),
        locate(range, value, cdf, k) > k ==> value < split(range, cdf, locate(range, value, cdf, k) - 1),
    decreases cdf.len() - k,
{
    let n = cdf.len() - 1;
    if k >= n - 1 {
        assert((range / 256) * 0 == 0);
    } else if value >= split(range, cdf, k) {
    } else {
        lemma_locate(range, value, cdf, k + 1);
    }
}

/// Renormalising a live range gives a well-formed state.
pub proof fn lemma_renormalized(s: Sym)
    requires
        1 <= s.range < 65536,
        0 <= s.value < s.range,
        0 <= s.pos,
        8 * s.data.len() - s.pos == max(s.max_bits, 0),
        symbol_addressable(s.data.len()),
        i64::MIN <= s.max_bits,
    ensures
        renormalized(s).wf(),
        0 <= log2(s.range) <= 15,
{
    lemma_log2(s.range);
    lemma_p2_values();
    if log2(s.range) > 15 {
        lemma_p2_mono(16, log2(s.range));
    }
    let shift = 15 - log2(s.range);
    let n = min(shift, max(s.max_bits, 0));
    lemma_p2_add(log2(s.range), shift);
    lemma_p2_add(log2(s.range) + 1, shift);
    lemma_p2_pos(shift);
    lemma_p2_add(n, shift - n);
    lemma_bits_bound(s.data, s.pos, n);
    lemma_p2_pos(shift - n);
    let b = bits(s.data, s.pos, n);
    assert(0 <= b * p2(shift - n) <= p2(shift) - 1) by (nonlinear_arith)
        requires
            0 <= b < p2(n),
            p2(n) * p2(shift - n) == p2(shift),
            p2(shift - n) >= 1,
    ;
    assert(p2(log2(s.range)) * p2(shift) <= s.range * p2(shift) < p2(log2(s.range) + 1) * p2(shift))
        by (nonlinear_arith)
        requires
            p2(log2(s.range)) <= s.range < p2(log2(s.range) + 1),
            p2(shift) >= 1,
    ;
    assert((s.value + 1) * p2(shift) <= s.range * p2(shift)) by (nonlinear_arith)
        requires
            s.value + 1 <= s.range,
            p2(shift) >= 1,
    ;
    assert((s.value + 1) * p2(shift) >= p2(shift)) by (nonlinear_arith)
        requires
            s.value >= 0,
            p2(shift) >= 1,
    ;
}

/// Decoding a symbol over a well-formed distribution keeps the state well formed
/// and yields a symbol of that distribution.
pub proof fn lemma_decode(s: Sym, cdf: Seq<u16>)
    requires
        s.wf(),
        cdf_ok(cdf),
    ensures
        decode(s, cdf).1.wf(),
        0 <= decode(s, cdf).0 < cdf.len() - 1,
        decode(s, cdf).1.data == s.data,
{
    reveal(decode);
    lemma_locate(s.range, s.value, cdf, 0);
    let k = locate(s.range, s.value, cdf, 0);
    let cur = split(s.range, cdf, k);
    let prev = if k == 0 {
        s.range
    } else {
        split(s.range, cdf, k - 1)
    };
    lemma_split_bound(s.range, cdf, k);
    if k > 0 {
        lemma_split_bound(s.range, cdf, k - 1);
    }
    lemma_renormalized(Sym { range: prev - cur, value: s.value - cur, ..s });
}

/// What a symbol's frequency adds to its interval's end, and the step between two
/// ends, fit in sixteen bits.
pub proof fn lemma_split_bound(range: int, cdf: Seq<u16>, k: int)
    requires
        cdf_ok(cdf),
        0 <= k < cdf.len() - 1,
        0 <= range < 65536,
    ensures
        0 <= ((range / 256) * ((32768 - cdf[k]) / 64)) / 2 <= 65280,
        0 <= split(range, cdf, k) <= u32::MAX,
        k > 0 ==> split(range, cdf, k - 1) - split(range, cdf, k) <= 65284,
        0 <= (range / 256) * ((32768 - cdf[k]) / 64) <= 130560,
{
    let a = range / 256;
    let b = (32768 - cdf[k]) as int / 64;
    assert(0 <= a * b <= 255 * 512) by (nonlinear_arith)
        requires
            0 <= a <= 255,
            0 <= b <= 512,
    ;
    if k > 0 {
        let c = (32768 - cdf[k - 1]) as int / 64;
        assert(0 <= a * c <= 255 * 512) by (nonlinear_arith)
            requires
                0 <= a <= 255,
                0 <= c <= 512,
        ;
    }
}

/// The equiprobable two-symbol distribution.
pub open spec fn even_cdf() -> Seq<u16> {
    seq![16384u16, 32768u16, 0u16]
}

/// `n` equiprobable bits, most significant first, and the state after them.
pub open spec fn literal(s: Sym, n: int) -> (int, Sym)
    decreases n,
{
    if n <= 0 {
        (0, s)
    } else {
        let (x, t) = literal(s, n - 1);
        let (b, u) = decode(t, even_cdf());
        (2 * x + b, u)
    }
}

/// A value in `0..n`, one bit shorter for the low values, and the state after it.
pub open spec fn uniform(s: Sym, n: int) -> (int, Sym) {
    if n <= 1 {
        (0, s)
    } else {
        let w = log2(n) + 1;
        let m = p2(w) - n;
        let (v, t) = literal(s, w - 1);
        if v < m {
            (v, t)
        } else {
            let (extra, u) = literal(t, 1);
            (2 * v - m + extra, u)
        }
    }
}

/// A literal of `n` bits is below `2^n`, and reading it keeps the state well formed.
pub proof fn lemma_literal(s: Sym, n: int)
    requires
        s.wf(),
    ensures
        literal(s, n).1.wf(),
        literal(s, n).1.data == s.data,
        0 <= literal(s, n).0 < p2(n),
    decreases n,
{
    if n > 0 {
        lemma_literal(s, n - 1);
        lemma_decode(literal(s, n - 1).1, even_cdf());
    }
}

/// The words of a distribution that no symbol can be read through.
pub open spec fn symbol_fault() -> Seq<char> {
    "an AV1 CDF must hold at least one symbol and a counter"@
}

/// A range decoder over an AV1 tile's symbol data.
pub struct SymbolDecoder<'a> {
    reader: BitReader<'a>,
    value: u32,
    range: u32,
    max_bits: i64,
    disable_cdf_update: bool,
}

impl<'a> SymbolDecoder<'a> {
    /// The decoder's state.
    pub closed spec fn sym(&self) -> Sym {
        Sym {
            data: self.reader.bytes(),
            pos: self.reader.at(),
            value: self.value as int,
            range: self.range as int,
            max_bits: self.max_bits as int,
        }
    }

    /// Whether distributions are left as they are.
    pub closed spec fn frozen(&self) -> bool {
        self.disable_cdf_update
    }

    /// The state is well formed.
    pub open spec fn wf(&self) -> bool {
        self.sym().wf()
    }

    /// Initialise the decoder over a tile's symbol partition.
    pub fn new(data: &'a [u8], disable_cdf_update: bool) -> (r: Outcome<Self>)
        requires
            symbol_addressable(data@.len()),
        ensures
            r is Ok,
            r->Ok_0.wf(),
            r->Ok_0.sym() == start(data@),
            r->Ok_0.frozen() == disable_cdf_update,
    {
        let mut reader = BitReader::new(data);
        let total = reader.bit_len();
        let num_bits: u32 = if total < 15 {
            total as u32
        } else {
            15
        };
        let buf = reader.f(num_bits)?;
        proof {
            lemma_p2_values();
            lemma_p2_add(num_bits as int, 15 - num_bits);
            lemma_p2_pos(15 - num_bits);
            assert(buf * p2(15 - num_bits) <= 32768 - p2(15 - num_bits)) by (nonlinear_arith)
                requires
                    buf < p2(num_bits as int),
                    p2(num_bits as int) * p2(15 - num_bits) == 32768,
                    p2(15 - num_bits) >= 1,
            ;
            assert(buf * p2(15 - num_bits) >= 0) by (nonlinear_arith)
                requires
                    buf >= 0,
                    p2(15 - num_bits) >= 1,
            ;
        }
        let padded: u32 = buf * pow2_u32(15 - num_bits);
        Ok(
            SymbolDecoder {
                reader,
                value: 32767 - padded,
                range: 32768,
                max_bits: (total as i64) - 15,
                disable_cdf_update,
            },
        )
    }

    /// Decode one symbol against `cdf`, adapting it unless updates are disabled. A
    /// slice too short to hold a symbol and a counter is an error.
    pub fn read_symbol(&mut self, cdf: &mut [u16]) -> (r: Outcome<usize>)
        requires
            old(self).wf(),
            old(cdf)@.len() >= 2 ==> cdf_ok(old(cdf)@),
        ensures
            r is Ok <==> old(cdf)@.len() >= 2,
            r is Err ==> fails_saying(r, ErrorCode::Malformed, symbol_fault()) && final(self).sym() == old(self).sym()
                && final(cdf)@ == old(cdf)@,
            r is Ok ==> r->Ok_0 == decode(old(self).sym(), old(cdf)@).0,
            r is Ok ==> final(self).sym() == decode(old(self).sym(), old(cdf)@).1,
            r is Ok ==> r->Ok_0 < old(cdf)@.len() - 1,
            final(cdf)@ == (if r is Ok && !old(self).frozen() {
                adapted(old(cdf)@, decode(old(self).sym(), old(cdf)@).0)
            } else {
                old(cdf)@
            }),
            final(self).wf(),
            final(self).frozen() == old(self).frozen(),
            old(cdf)@.len() >= 2 ==> cdf_ok(final(cdf)@),
            final(cdf)@.len() == old(cdf)@.len(),
    {
        let len = cdf.len();
        if len < 2 {
            return Err(PixelsError::malformed("an AV1 CDF must hold at least one symbol and a counter"));
        }
        let n: usize = len - 1;
        let ghost s = self.sym();
        let ghost c = cdf@;
        proof {
            reveal(decode);
            lemma_decode(s, c);
            lemma_locate(s.range, s.value, c, 0);
        }
        let mut prev: u32 = self.range;
        let mut symbol: usize = 0;
        let mut cur: u32 = self.split_at(cdf, 0);
        while self.value < cur
            invariant
                s == self.sym(),
                s.wf(),
                c == cdf@,
                cdf_ok(c),
                n == c.len() - 1,
                symbol < n,
                cur == split(s.range, c, symbol as int),
                prev == (if symbol == 0 {
                    s.range
                } else {
                    split(s.range, c, symbol - 1)
                }),
                locate(s.range, s.value, c, 0) == locate(s.range, s.value, c, symbol as int),
            decreases n - symbol,
        {
            proof {
                lemma_locate(s.range, s.value, c, symbol as int);
            }
            symbol = symbol + 1;
            prev = cur;
            cur = self.split_at(cdf, symbol);
        }
        proof {
            lemma_locate(s.range, s.value, c, symbol as int);
            if symbol > 0 {
                lemma_split_bound(s.range, c, symbol - 1);
            }
        }
        self.range = prev - cur;
        self.value = self.value - cur;
        self.renormalize();
        if !self.disable_cdf_update {
            proof {
                lemma_adapted_ok(c, symbol as int);
            }
            update_cdf(cdf, symbol);
        }
        Ok(symbol)
    }

    /// The lower end of symbol `k`'s interval.
    fn split_at(&self, cdf: &[u16], k: usize) -> (r: u32)
        requires
            self.wf(),
            cdf_ok(cdf@),
            k < cdf@.len() - 1,
        ensures
            r == split(self.sym().range, cdf@, k as int),
    {
        proof {
            lemma_split_bound(self.sym().range, cdf@, k as int);
        }
        let f: u32 = 32768 - cdf[k] as u32;
        ((self.range / 256) * (f / 64)) / 2 + EC_MIN_PROB * ((cdf.len() - 2 - k) as u32)
    }

    /// Bring the range back into `2^15..2^16`, taking in new bits; past the real
    /// data they are zeros.
    fn renormalize(&mut self)
        requires
            1 <= old(self).sym().range < 65536,
            0 <= old(self).sym().value < old(self).sym().range,
            0 <= old(self).sym().pos,
            8 * old(self).sym().data.len() - old(self).sym().pos == max(old(self).sym().max_bits, 0),
            symbol_addressable(old(self).sym().data.len()),
        ensures
            final(self).sym() == renormalized(old(self).sym()),
            final(self).wf(),
            final(self).frozen() == old(self).frozen(),
    {
        let ghost s = self.sym();
        proof {
            lemma_renormalized(s);
            lemma_log2(s.range);
        }
        let shift: u32 = 15 - floor_log2(self.range);
        let available: i64 = if self.max_bits > 0 {
            self.max_bits
        } else {
            0
        };
        let num_bits: u32 = if (shift as i64) < available {
            shift
        } else {
            available as u32
        };
        let new_data = match self.reader.f(num_bits) {
            Ok(v) => v,
            Err(_) => 0,
        };
        proof {
            lemma_p2_values();
            lemma_p2_mono(shift as int, 15);
            lemma_p2_add(num_bits as int, shift - num_bits);
            lemma_p2_pos(shift - num_bits);
            lemma_p2_pos(shift as int);
            lemma_p2_mono(shift - num_bits, 15);
            assert(new_data * p2(shift - num_bits) < p2(shift as int)) by (nonlinear_arith)
                requires
                    new_data < p2(num_bits as int),
                    p2(num_bits as int) * p2(shift - num_bits) == p2(shift as int),
                    p2(shift - num_bits) >= 1,
            ;
            assert((s.value + 1) * p2(shift as int) <= s.range * p2(shift as int)) by (nonlinear_arith)
                requires
                    s.value + 1 <= s.range,
                    p2(shift as int) >= 1,
            ;
            assert((s.value + 1) * p2(shift as int) >= p2(shift as int)) by (nonlinear_arith)
                requires
                    s.value >= 0,
                    p2(shift as int) >= 1,
            ;
        }
        let scale = pow2_u32(shift);
        let padded: u32 = new_data * pow2_u32(shift - num_bits);
        self.range = self.range * scale;
        self.value = (self.value + 1) * scale - 1 - padded;
        self.max_bits = if self.max_bits >= i64::MIN + 15 {
            self.max_bits - shift as i64
        } else if self.max_bits - i64::MIN >= shift as i64 {
            self.max_bits - shift as i64
        } else {
            i64::MIN
        };
    }

    /// Decode one equiprobable bit.
    pub fn read_bool(&mut self) -> (r: Outcome<bool>)
        requires
            old(self).wf(),
        ensures
            r is Ok,
            r->Ok_0 == (decode(old(self).sym(), even_cdf()).0 != 0),
            final(self).sym() == decode(old(self).sym(), even_cdf()).1,
            final(self).wf(),
            final(self).frozen() == old(self).frozen(),
    {
        let mut cdf: [u16; 3] = [16384, 32768, 0];
        let saved = self.disable_cdf_update;
        self.disable_cdf_update = true;
        assert(cdf@ =~= even_cdf());
        let symbol = self.read_symbol(&mut cdf);
        self.disable_cdf_update = saved;
        Ok(symbol? != 0)
    }

    /// Decode an `n`-bit literal, most significant bit first.
    pub fn read_literal(&mut self, n: u32) -> (r: Outcome<u32>)
        requires
            old(self).wf(),
            n <= 32,
        ensures
            r is Ok,
            r->Ok_0 == literal(old(self).sym(), n as int).0,
            r->Ok_0 < p2(n as int),
            final(self).sym() == literal(old(self).sym(), n as int).1,
            final(self).wf(),
            final(self).frozen() == old(self).frozen(),
    {
        let ghost s = self.sym();
        let mut x: u32 = 0;
        let mut i: u32 = 0;
        while i < n
            invariant
                i <= n <= 32,
                s == old(self).sym(),
                s.wf(),
                self.wf(),
                self.frozen() == old(self).frozen(),
                x == literal(s, i as int).0,
                self.sym() == literal(s, i as int).1,
            decreases n - i,
        {
            proof {
                lemma_literal(s, i as int);
                lemma_literal(s, i + 1);
                lemma_p2_mono(i + 1, 32);
                lemma_p2_values();
                lemma_decode(self.sym(), even_cdf());
            }
            let b = self.read_bool()?;
            x = 2 * x + if b {
                1
            } else {
                0
            };
            i = i + 1;
        }
        proof {
            lemma_literal(s, n as int);
        }
        Ok(x)
    }

    /// Decode a value in `0..n`, one bit shorter for the low values.
    pub fn read_ns(&mut self, n: u32) -> (r: Outcome<u32>)
        requires
            old(self).wf(),
            n < 0x8000_0000,
        ensures
            r is Ok,
            r->Ok_0 == uniform(old(self).sym(), n as int).0,
            final(self).sym() == uniform(old(self).sym(), n as int).1,
            n > 0 ==> r->Ok_0 < n,
            final(self).wf(),
            final(self).frozen() == old(self).frozen(),
    {
        if n <= 1 {
            return Ok(0);
        }
        let w = floor_log2(n) + 1;
        proof {
            lemma_log2(n as int);
            lemma_p2_values();
            if w > 31 {
                lemma_p2_mono(31, w - 1);
            }
            lemma_p2_mono(w as int, 31);
        }
        let m = pow2_u32(w) - n;
        let v = self.read_literal(w - 1)?;
        if v < m {
            return Ok(v);
        }
        let extra = self.read_literal(1)?;
        Ok(2 * v - m + extra)
    }

    /// The number of real bits still available; negative once the decoder is in the
    /// implied zeros.
    pub fn max_bits(&self) -> (r: i64)
        ensures
            r == self.sym().max_bits,
    {
        self.max_bits
    }

    /// The current range.
    pub fn range(&self) -> (r: u32)
        ensures
            r == self.sym().range,
    {
        self.range
    }

    /// The position within the current range.
    pub fn value(&self) -> (r: u32)
        ensures
            r == self.sym().value,
    {
        self.value
    }
}

/// Adapt `cdf` toward `symbol`. The counter slows adaptation as symbols are seen.
pub fn update_cdf(cdf: &mut [u16], symbol: usize)
    requires
        cdf_ok(old(cdf)@),
    ensures
        final(cdf)@ == adapted(old(cdf)@, symbol as int),
{
    let ghost c = cdf@;
    let n: usize = cdf.len() - 1;
    let count = cdf[n];
    proof {
        lemma_log2(n as int);
    }
    let log = floor_log2(n as u32);
    let rate: u32 = 3 + (if count > 15 {
        1
    } else {
        0
    }) + (if count > 31 {
        1
    } else {
        0
    }) + (if log < 2 {
        log
    } else {
        2
    });
    let mut i: usize = 0;
    while i < n - 1
        invariant
            n == c.len() - 1,
            cdf_ok(c),
            cdf@.len() == c.len(),
            i <= n - 1,
            rate == adapt_rate(c),
            0 <= rate < 8,
            forall|j: int| 0 <= j < i ==> cdf@[j] == adapted(c, symbol as int)[j],
            forall|j: int| i <= j < c.len() ==> cdf@[j] == c[j],
        decreases n - i,
    {
        let ci = cdf[i] as u32;
        assert(c[i as int] <= 32768);
        proof {
            lemma_adapt_entry(ci as int, i >= symbol, rate as int);
        }
        let updated: u32 = if i >= symbol {
            ci + shr_u32(32768 - ci, rate)
        } else {
            ci - shr_u32(ci, rate)
        };
        cdf[i] = updated as u16;
        i = i + 1;
    }
    if cdf[n] < 32 {
        cdf[n] = cdf[n] + 1;
    }
    assert(cdf@ =~= adapted(c, symbol as int));
}

} // verus!
