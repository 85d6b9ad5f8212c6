//! What holds of the arithmetic decoder: symbols own intervals of the range, reading
//! keeps every bit of the data in the value, and distributions follow what is read.
use super::bits::{bits, lemma_bits_concat, lemma_log2, log2};
use super::symbol::{adapt_entry, adapt_rate, adapted, cdf_ok, decode, lemma_adapted_ok, lemma_decode, lemma_literal, lemma_locate, lemma_split_bound, literal, locate, renormalized, split, start, uniform, Sym};
use crate::math::{lemma_p2_add, lemma_p2_mono, lemma_p2_pos, lemma_p2_values, p2};
use vstd::prelude::*;

verus! {

/// Whether the frequencies of a distribution rise.
pub open spec fn rising(cdf: Seq<u16>) -> bool {
    &&& cdf_ok(cdf)
    &&& forall|i: int, j: int| 0 <= i <= j < cdf.len() - 1 ==> cdf[i] <= cdf[j]
}

/// The intervals of the symbols lie one below the other down to zero, and each is at
/// least as wide as the floor.
pub proof fn lemma_intervals_fall(range: int, cdf: Seq<u16>, k: int)
    requires
        rising(cdf),
        0 <= range < 65536,
        0 <= k < cdf.len() - 1,
    ensures
        split(range, cdf, cdf.len() - 2) == 0,
        split(range, cdf, k) >= 0,
        k > 0 ==> split(range, cdf, k - 1) - split(range, cdf, k) >= 4,
{
    lemma_split_bound(range, cdf, k);
    assert((range / 256) * 0 == 0);
    if k > 0 {
        let (x, y) = ((32768 - cdf[k - 1]) as int / 64, (32768 - cdf[k]) as int / 64);
        assert(cdf[k - 1] <= cdf[k]);
        assert((range / 256) * x >= (range / 256) * y) by (nonlinear_arith)
            requires
                x >= y,
                range >= 0,
        ;
    }
}

/// Lower ends fall from symbol to symbol.
proof fn lemma_splits_fall(range: int, cdf: Seq<u16>, i: int, j: int)
    requires
        rising(cdf),
        0 <= range < 65536,
        0 <= i <= j < cdf.len() - 1,
    ensures
        split(range, cdf, i) >= split(range, cdf, j),
    decreases j - i,
{
    if i < j {
        lemma_splits_fall(range, cdf, i, j - 1);
        lemma_intervals_fall(range, cdf, j);
    }
}

/// An interval starts where its symbol's share of the range does, but for the floor of the
/// symbols behind it and the bits that the product leaves out.
pub proof fn lemma_split_is_the_share(range: int, cdf: Seq<u16>, k: int)
    requires
        cdf_ok(cdf),
        0 <= range < 65536,
        0 <= k < cdf.len() - 1,
    ensures
        ({
            let share = split(range, cdf, k) - 4 * (cdf.len() - 2 - k);
            0 <= range * (32768 - cdf[k]) - 32768 * share < 32768 * 384
        }),
{
    let f = 32768 - cdf[k];
    let (a, r, b, g) = (range / 256, range % 256, f / 64, f % 64);
    let p = a * b;
    assert(range == 256 * a + r && f == 64 * b + g);
    assert(range * f == 16384 * p + 256 * (a * g) + r * f) by (nonlinear_arith)
        requires
            range == 256 * a + r,
            f == 64 * b + g,
            p == a * b,
    ;
    assert(0 <= a * g <= 255 * 63) by (nonlinear_arith)
        requires
            0 <= a <= 255,
            0 <= g <= 63,
    ;
    assert(0 <= r * f <= 255 * 32768) by (nonlinear_arith)
        requires
            0 <= r <= 255,
            0 <= f <= 32768,
    ;
    assert(p >= 0) by (nonlinear_arith)
        requires
            p == a * b,
            a >= 0,
            b >= 0,
    ;
}

/// The symbol read is the one whose interval holds the value; with rising frequencies
/// there is one such symbol alone.
pub proof fn lemma_symbol_owns_the_value(s: Sym, cdf: Seq<u16>, j: int)
    requires
        s.wf(),
        cdf_ok(cdf),
        0 <= j < cdf.len() - 1,
    ensures
        ({
            let k = decode(s, cdf).0;
            &&& 0 <= k < cdf.len() - 1
            &&& split(s.range, cdf, k) <= s.value
            &&& k > 0 ==> s.value < split(s.range, cdf, k - 1)
            &&& rising(cdf) && split(s.range, cdf, j) <= s.value && (j == 0 || s.value < split(s.range, cdf, j - 1))
                ==> k == j
        }),
{
    reveal(decode);
    lemma_locate(s.range, s.value, cdf, 0);
    let k = locate(s.range, s.value, cdf, 0);
    if rising(cdf) {
        if j < k {
            lemma_splits_fall(s.range, cdf, j, k - 1);
        } else if k < j {
            lemma_splits_fall(s.range, cdf, k, j - 1);
        }
    }
}

/// What is left of the data after `n` more bits are taken in: how far they are below the
/// end of the range.
pub open spec fn window(s: Sym, n: int) -> int {
    (s.value + 1) * p2(n) - bits(s.data, s.pos, n)
}

/// Bringing the range back doubles it until it has sixteen bits, and takes in a bit of the
/// data for each time: no bit is lost and none is read twice.
pub proof fn lemma_renormalized_keeps_bits(s: Sym, m: int)
    requires
        1 <= s.range < 65536,
        0 <= m,
        15 - log2(s.range) + m <= s.max_bits,
    ensures
        ({
            let (t, n) = (renormalized(s), 15 - log2(s.range));
            &&& 0 <= n
            &&& t.range == s.range * p2(n)
            &&& 32768 <= t.range < 65536
            &&& t.pos == s.pos + n
            &&& t.max_bits == s.max_bits - n
            &&& t.data == s.data
            &&& window(t, m) == window(s, n + m)
        }),
{
    let (t, n) = (renormalized(s), 15 - log2(s.range));
    lemma_log2(s.range);
    lemma_p2_values();
    if log2(s.range) > 15 {
        lemma_p2_mono(16, log2(s.range));
    }
    lemma_p2_add(log2(s.range), n);
    lemma_p2_add(log2(s.range) + 1, n);
    lemma_p2_pos(n);
    assert(p2(log2(s.range)) * p2(n) <= s.range * p2(n) < p2(log2(s.range) + 1) * p2(n)) by (nonlinear_arith)
        requires
            p2(log2(s.range)) <= s.range < p2(log2(s.range) + 1),
            p2(n) >= 1,
    ;
    lemma_bits_concat(s.data, s.pos, n, m);
    lemma_p2_add(n, m);
    let (v, b, p, q) = (s.value + 1, bits(s.data, s.pos, n), p2(n), p2(m));
    assert(b * p2(0) == b);
    assert(t.value + 1 == v * p - b);
    assert((v * p - b) * q == v * (p * q) - b * q) by (nonlinear_arith);
}

/// A decoder starts as one whose range is a single value is brought back: with the first
/// fifteen bits taken in.
pub proof fn lemma_start_takes_in(data: Seq<u8>)
    requires
        data.len() <= 0x1000_0000_0000,
    ensures
        start(data) == renormalized(Sym { data, pos: 0, value: 0, range: 1, max_bits: 8 * data.len() as int }),
        data.len() >= 2 ==> start(data).value == 32767 - bits(data, 0, 15),
        data.len() >= 2 ==> start(data).pos == 15,
{
    lemma_p2_values();
    assert(log2(1) == 0);
    let s = Sym { data, pos: 0, value: 0, range: 1, max_bits: 8 * data.len() as int };
    assert(1 * p2(15) == 32768);
    if data.len() >= 2 {
        assert(bits(data, 0, 15) * p2(0) == bits(data, 0, 15));
    }
}

/// Reading a symbol narrows the range to the symbol's interval, and brings it back.
pub proof fn lemma_symbol_narrows(s: Sym, cdf: Seq<u16>, m: int)
    requires
        s.wf(),
        rising(cdf),
        split(s.range, cdf, 0) < s.range,
        0 <= m,
        15 + m <= s.max_bits,
    ensures
        ({
            let (k, t) = decode(s, cdf);
            let low = split(s.range, cdf, k);
            let width = (if k == 0 {
                s.range
            } else {
                split(s.range, cdf, k - 1)
            }) - low;
            let n = t.pos - s.pos;
            &&& 0 <= n <= 15
            &&& t.range == width * p2(n)
            &&& window(t, m) == window(s, n + m) - low * p2(n + m)
        }),
{
    reveal(decode);
    lemma_decode(s, cdf);
    lemma_locate(s.range, s.value, cdf, 0);
    let (k, t) = decode(s, cdf);
    let low = split(s.range, cdf, k);
    let high = if k == 0 {
        s.range
    } else {
        split(s.range, cdf, k - 1)
    };
    lemma_splits_fall(s.range, cdf, 0, k);
    if k > 0 {
        lemma_splits_fall(s.range, cdf, 0, k - 1);
        lemma_intervals_fall(s.range, cdf, k);
    }
    lemma_intervals_fall(s.range, cdf, k);
    let u = Sym { range: high - low, value: s.value - low, ..s };
    lemma_log2(high - low);
    lemma_renormalized_keeps_bits(u, m);
    let n = 15 - log2(high - low);
    let (v, p) = (s.value + 1, p2(n + m));
    assert((v - low) * p == v * p - low * p) by (nonlinear_arith);
}

/// Reading a symbol makes it likelier: the frequencies below it fall and those from it on
/// rise, none past its end, by no more than a share of what is left to it.
pub proof fn lemma_adapting_follows(cdf: Seq<u16>, symbol: int, i: int)
    requires
        cdf_ok(cdf),
        cdf[cdf.len() - 1] <= 32,
        0 <= symbol < cdf.len() - 1,
        0 <= i < cdf.len() - 2,
    ensures
        ({
            let (was, now) = (cdf[i] as int, adapted(cdf, symbol)[i] as int);
            let (few, many) = (p2(adapt_rate(cdf)), adapt_rate(cdf));
            &&& 3 <= many <= 7
            &&& i < symbol ==> 0 <= was - few * (was - now) < few
            &&& i >= symbol ==> 0 <= (32768 - was) - few * (now - was) < few
            &&& i < symbol ==> now <= was
            &&& i >= symbol ==> was <= now
        }),
{
    let n = cdf.len() - 1;
    lemma_log2(n);
    let rate = adapt_rate(cdf);
    let d = p2(rate);
    lemma_p2_pos(rate);
    let c = cdf[i] as int;
    vstd::arithmetic::div_mod::lemma_fundamental_div_mod(c, d);
    vstd::arithmetic::div_mod::lemma_fundamental_div_mod(32768 - c, d);
    vstd::arithmetic::div_mod::lemma_mod_bound(c, d);
    vstd::arithmetic::div_mod::lemma_mod_bound(32768 - c, d);
    crate::math::lemma_quotient_bound(c, d);
    crate::math::lemma_quotient_bound(32768 - c, d);
    assert(0 <= adapt_entry(c, i >= symbol, rate) <= 32768);
}

/// Adapting keeps the end of the last symbol at one, counts up to 32, and is slower the
/// more was counted and the more symbols there are.
pub proof fn lemma_adapting_counts(cdf: Seq<u16>, symbol: int)
    requires
        cdf_ok(cdf),
        cdf[cdf.len() - 1] <= 32,
    ensures
        ({
            let (n, a) = (cdf.len() - 1, adapted(cdf, symbol));
            let count = cdf[n] as int;
            let more = if n >= 4 {
                2int
            } else if n >= 2 {
                1
            } else {
                0
            };
            &&& a.len() == cdf.len()
            &&& a[n - 1] == 32768
            &&& a[n] == (if count < 32 {
                count + 1
            } else {
                32
            })
            &&& adapt_rate(cdf) == more + if count < 16 {
                3int
            } else if count < 32 {
                4
            } else {
                5
            }
        }),
{
    let n = cdf.len() - 1;
    lemma_log2(n);
    lemma_p2_values();
    if n >= 4 {
        if log2(n) < 2 {
            lemma_p2_mono(log2(n) + 1, 2);
        }
    } else if n >= 2 {
        super::bits::lemma_log2_unique(n, 1);
    }
}

/// Adapting keeps rising frequencies rising.
pub proof fn lemma_adapting_keeps_rising(cdf: Seq<u16>, symbol: int)
    requires
        rising(cdf),
        cdf[cdf.len() - 1] <= 32,
        0 <= symbol < cdf.len() - 1,
    ensures
        rising(adapted(cdf, symbol)),
{
    let a = adapted(cdf, symbol);
    lemma_adapted_ok(cdf, symbol);
    assert forall|i: int, j: int| 0 <= i <= j < a.len() - 1 implies a[i] <= a[j] by {
        assert(cdf[i] <= cdf[j]);
        let (x, y, d) = (cdf[i] as int, cdf[j] as int, p2(adapt_rate(cdf)));
        lemma_log2(cdf.len() - 1);
        lemma_p2_pos(adapt_rate(cdf));
        if j < cdf.len() - 2 {
            lemma_adapting_follows(cdf, symbol, i);
            lemma_adapting_follows(cdf, symbol, j);
            lemma_steps(x, y, d);
        } else if i < cdf.len() - 2 {
            assert(a[j] == 32768);
        }
    }
}

/// A greater frequency stays no less when both take the same share of a step.
proof fn lemma_steps(x: int, y: int, d: int)
    requires
        0 <= x <= y <= 32768,
        d >= 1,
    ensures
        x - x / d <= y - y / d,
        x + (32768 - x) / d <= y + (32768 - y) / d,
        x - x / d <= y + (32768 - y) / d,
{
    let (p, q, k) = (x / d, y / d, y - x);
    assert(q <= p + k) by (nonlinear_arith)
        requires
            p == x / d,
            q == y / d,
            k == y - x,
            k >= 0,
            d >= 1,
    ;
    let (r, s) = ((32768 - x) / d, (32768 - y) / d);
    assert(r <= s + k) by (nonlinear_arith)
        requires
            r == (32768 - x) / d,
            s == (32768 - y) / d,
            k == y - x,
            k >= 0,
            d >= 1,
    ;
    crate::math::lemma_quotient_bound(x, d);
    crate::math::lemma_quotient_bound(32768 - y, d);
}

/// Reading `a + b` equiprobable bits at once is reading `a` of them and then `b`.
pub proof fn lemma_literals_join(s: Sym, a: int, b: int)
    requires
        a >= 0,
        b >= 0,
    ensures
        ({
            let (x, t) = literal(s, a);
            let (y, u) = literal(t, b);
            literal(s, a + b) == (x * p2(b) + y, u)
        }),
    decreases b,
{
    let x = literal(s, a).0;
    if b > 0 {
        lemma_literals_join(s, a, b - 1);
        assert(2 * (x * p2(b - 1)) == x * (2 * p2(b - 1))) by (nonlinear_arith);
        assert(a + b - 1 == a + (b - 1));
    } else {
        assert(x * 1 == x);
    }
}

/// An even choice of `n` values reads a value below `n`: what `n` lacks of a power of two
/// of values take one bit fewer than it has, and the others as many.
pub proof fn lemma_uniform_reads(s: Sym, n: int, w: int)
    requires
        s.wf(),
        1 < n,
        1 <= w,
        p2(w - 1) <= n < p2(w),
    ensures
        ({
            let (v, t) = uniform(s, n);
            let short = literal(s, w - 1);
            let long = literal(s, w);
            let few = p2(w) - n;
            &&& 0 <= v < n
            &&& short.0 < few ==> (v, t) == short
            &&& short.0 >= few ==> (v, t) == (long.0 - few, long.1)
        }),
{
    super::bits::lemma_log2_unique(n, w - 1);
    lemma_literals_join(s, w - 1, 1);
    lemma_literal(s, w - 1);
    lemma_literal(s, w);
    lemma_p2_values();
    assert(w - 1 + 1 == w);
    assert(log2(n) + 1 == w);
    let (x, t) = literal(s, w - 1);
    let (y, u) = literal(t, 1);
    lemma_literal(t, 1);
    assert(literal(s, w) == (x * p2(1) + y, u));
    assert(x * p2(1) == 2 * x);
    let few = p2(w) - n;
    if x < few {
        assert(uniform(s, n) == (x, t));
        assert(p2(w) == 2 * p2(w - 1));
    } else {
        assert(uniform(s, n) == (2 * x - few + y, u));
    }
}

} // verus!
