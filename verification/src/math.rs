//! Powers of two, shifts and rounding, tied to integer arithmetic.
use vstd::arithmetic::div_mod::{lemma_fundamental_div_mod, lemma_fundamental_div_mod_converse};
use vstd::arithmetic::power2::{lemma_pow2_unfold, lemma2_to64, pow2};
use vstd::bits::{lemma_u32_shl_is_mul, lemma_u32_shr_is_div, lemma_u64_shl_is_mul, lemma_u64_shr_is_div};
use vstd::prelude::*;

verus! {

/// Two to the power `n`; one for a negative `n`.
pub open spec fn p2(n: int) -> int
    decreases n,
{
    if n <= 0 {
        1
    } else {
        2 * p2(n - 1)
    }
}

/// `p2` agrees with the standard library's power of two.
pub proof fn lemma_p2_is_pow2(n: nat)
    ensures
        p2(n as int) == pow2(n),
    decreases n,
{
    if n == 0 {
        lemma2_to64();
    } else {
        lemma_p2_is_pow2((n - 1) as nat);
        lemma_pow2_unfold(n);
    }
}

/// A power of two is positive, and at least two for a positive exponent.
pub proof fn lemma_p2_pos(n: int)
    ensures
        p2(n) >= 1,
        n > 0 ==> p2(n) >= 2,
    decreases n,
{
    if n > 0 {
        lemma_p2_pos(n - 1);
    }
}

/// Powers of two grow with their exponent.
pub proof fn lemma_p2_mono(a: int, b: int)
    requires
        a <= b,
    ensures
        p2(a) <= p2(b),
    decreases b - a,
{
    if a < b {
        lemma_p2_mono(a, b - 1);
        lemma_p2_pos(b - 1);
    }
}

/// Exponents add.
pub proof fn lemma_p2_add(a: int, b: int)
    requires
        a >= 0,
        b >= 0,
    ensures
        p2(a + b) == p2(a) * p2(b),
    decreases b,
{
    if b > 0 {
        lemma_p2_add(a, b - 1);
        assert(p2(a) * (2 * p2(b - 1)) == 2 * (p2(a) * p2(b - 1))) by (nonlinear_arith);
    } else {
        assert(p2(a) * 1 == p2(a));
    }
}

/// The small powers of two.
pub proof fn lemma_p2_values()
    ensures
        p2(0) == 1,
        p2(1) == 2,
        p2(2) == 4,
        p2(3) == 8,
        p2(4) == 16,
        p2(5) == 32,
        p2(6) == 64,
        p2(7) == 128,
        p2(8) == 256,
        p2(9) == 512,
        p2(10) == 1024,
        p2(11) == 2048,
        p2(12) == 4096,
        p2(13) == 8192,
        p2(14) == 16384,
        p2(15) == 32768,
        p2(16) == 65536,
        p2(17) == 0x20000,
        p2(20) == 0x100000,
        p2(24) == 0x1000000,
        p2(31) == 0x8000_0000,
        p2(32) == 0x1_0000_0000,
{
    reveal_with_fuel(p2, 33);
}

/// The wide powers of two.
pub proof fn lemma_p2_wide()
    ensures
        p2(31) == 0x8000_0000,
        p2(32) == 0x1_0000_0000,
        p2(56) == 0x100_0000_0000_0000,
        p2(62) == 0x4000_0000_0000_0000,
        p2(63) == 0x8000_0000_0000_0000,
        p2(64) == 0x1_0000_0000_0000_0000,
{
    lemma_p2_values();
    lemma_p2_add(32, 31);
    lemma_p2_add(32, 24);
    assert(p2(63) == 2 * p2(62));
    assert(p2(64) == 2 * p2(63));
}

/// `2^k` as a `u32`.
pub fn pow2_u32(k: u32) -> (r: u32)
    requires
        k < 32,
    ensures
        r == p2(k as int),
{
    proof {
        lemma_p2_is_pow2(k as nat);
        lemma_p2_mono(k as int, 31);
        lemma_p2_values();
        lemma_u32_shl_is_mul(1, k);
    }
    1u32 << k
}

/// `2^k` as an `i64`.
pub fn pow2_i64(k: u32) -> (r: i64)
    requires
        k < 63,
    ensures
        r == p2(k as int),
{
    proof {
        lemma_p2_is_pow2(k as nat);
        lemma_p2_mono(k as int, 62);
        lemma_p2_wide();
        lemma_u64_shl_is_mul(1, k as u64);
    }
    (1u64 << (k as u64)) as i64
}

/// `2^k` as an `i32`.
pub fn pow2_i32(k: u32) -> (r: i32)
    requires
        k < 31,
    ensures
        r == p2(k as int),
{
    proof {
        lemma_p2_mono(k as int, 30);
        lemma_p2_values();
        assert(p2(31) == 2 * p2(30));
    }
    pow2_u32(k) as i32
}

/// `2^k` as a `usize`.
pub fn pow2_usize(k: u32) -> (r: usize)
    requires
        k < 32,
    ensures
        r == p2(k as int),
{
    pow2_u32(k) as usize
}

/// `x` shifted right by `k` bits: the quotient by `2^k`.
pub fn shr_u32(x: u32, k: u32) -> (r: u32)
    requires
        k < 32,
    ensures
        r == x as int / p2(k as int),
{
    proof {
        lemma_p2_is_pow2(k as nat);
        lemma_u32_shr_is_div(x, k);
    }
    x >> k
}

/// `x` shifted right by `k` bits: the quotient by `2^k`.
pub fn shr_u64(x: u64, k: u32) -> (r: u64)
    requires
        k < 64,
    ensures
        r == x as int / p2(k as int),
{
    proof {
        lemma_p2_is_pow2(k as nat);
        lemma_u64_shr_is_div(x, k as u64);
    }
    x >> (k as u64)
}

/// The quotient of a negative number, rounded towards minus infinity, mirrors
/// the quotient of its complement.
pub proof fn lemma_neg_quotient(x: int, d: int)
    requires
        x < 0,
        d > 0,
    ensures
        x / d == -1 - ((-1 - x) / d),
{
    let y = -1 - x;
    lemma_fundamental_div_mod(y, d);
    let q = y / d;
    let r = y % d;
    assert(x == d * (-1 - q) + (d - 1 - r)) by (nonlinear_arith)
        requires
            x == -1 - y,
            y == d * q + r,
    ;
    assert(0 <= r < d);
    lemma_fundamental_div_mod_converse(x, d, -1 - q, d - 1 - r);
}

/// `x` shifted right by `k` bits: the quotient by `2^k`, rounded towards minus
/// infinity.
pub fn shr_i64(x: i64, k: u32) -> (r: i64)
    requires
        k < 64,
    ensures
        r == x as int / p2(k as int),
{
    proof {
        lemma_p2_pos(k as int);
        if x < 0 {
            lemma_neg_quotient(x as int, p2(k as int));
        }
    }
    if x >= 0 {
        let q = shr_u64(x as u64, k);
        proof {
            vstd::arithmetic::div_mod::lemma_div_nonincreasing(x as int, p2(k as int));
        }
        q as i64
    } else {
        let y: i64 = -1 - x;
        let q = shr_u64(y as u64, k);
        proof {
            vstd::arithmetic::div_mod::lemma_div_nonincreasing(y as int, p2(k as int));
        }
        -1 - (q as i64)
    }
}

/// `x` shifted right by `k` bits: the quotient by `2^k`, rounded towards minus
/// infinity.
pub fn shr_i32(x: i32, k: u32) -> (r: i32)
    requires
        k < 32,
    ensures
        r == x as int / p2(k as int),
{
    proof {
        lemma_p2_pos(k as int);
        lemma_quotient_bound(x as int, p2(k as int));
    }
    shr_i64(x as i64, k) as i32
}

/// A quotient by a positive divisor lies between zero and its dividend, or
/// between its dividend and minus one.
pub proof fn lemma_quotient_bound(x: int, d: int)
    requires
        d > 0,
    ensures
        x >= 0 ==> 0 <= x / d <= x,
        x < 0 ==> x <= x / d <= -1,
{
    if x >= 0 {
        vstd::arithmetic::div_mod::lemma_div_nonincreasing(x, d);
        vstd::arithmetic::div_mod::lemma_div_pos_is_pos(x, d);
    } else {
        lemma_neg_quotient(x, d);
        vstd::arithmetic::div_mod::lemma_div_nonincreasing(-1 - x, d);
        vstd::arithmetic::div_mod::lemma_div_pos_is_pos(-1 - x, d);
    }
}

/// The larger of two integers.
pub open spec fn max(a: int, b: int) -> int {
    if a >= b {
        a
    } else {
        b
    }
}

/// The smaller of two integers.
pub open spec fn min(a: int, b: int) -> int {
    if a <= b {
        a
    } else {
        b
    }
}

/// `x` limited to `lo..=hi`.
pub open spec fn clamp(x: int, lo: int, hi: int) -> int {
    if x < lo {
        lo
    } else if x > hi {
        hi
    } else {
        x
    }
}

/// The magnitude of an integer.
pub open spec fn abs(x: int) -> int {
    if x < 0 {
        -x
    } else {
        x
    }
}

/// `Round2(x, n)`: `x / 2^n`, rounded half up.
pub open spec fn round2(x: int, n: int) -> int {
    if n <= 0 {
        x
    } else {
        (x + p2(n - 1)) / p2(n)
    }
}

/// `Round2Signed(x, n)`: `x / 2^n`, rounded half away from zero.
pub open spec fn round2_signed(x: int, n: int) -> int {
    if x >= 0 {
        round2(x, n)
    } else {
        -round2(-x, n)
    }
}

/// `x` limited to `lo..=hi`.
pub fn clamp_i32(x: i32, lo: i32, hi: i32) -> (r: i32)
    ensures
        r == clamp(x as int, lo as int, hi as int),
{
    if x < lo {
        lo
    } else if x > hi {
        hi
    } else {
        x
    }
}

/// `x` limited to `lo..=hi`.
pub fn clamp_i64(x: i64, lo: i64, hi: i64) -> (r: i64)
    ensures
        r == clamp(x as int, lo as int, hi as int),
{
    if x < lo {
        lo
    } else if x > hi {
        hi
    } else {
        x
    }
}

/// The magnitude of `x`.
pub fn abs_i32(x: i32) -> (r: i32)
    requires
        x > i32::MIN,
    ensures
        r == abs(x as int),
{
    if x < 0 {
        -x
    } else {
        x
    }
}

/// A quotient by a power of two that is rounded is the nearest whole number, and the greater
/// of two that are as near; rounded by its magnitude it mirrors with the sign.
pub proof fn lemma_rounds_to_the_nearest(x: int, n: int)
    requires
        n >= 0,
    ensures
        -p2(n) < 2 * (p2(n) * round2(x, n) - x) <= p2(n),
        n == 0 ==> round2(x, n) == x,
        round2_signed(-x, n) == -round2_signed(x, n),
        x >= 0 ==> round2_signed(x, n) == round2(x, n),
{
    let d = p2(n);
    lemma_p2_pos(n);
    if n > 0 {
        let (h, q) = (p2(n - 1), round2(x, n));
        assert(d == 2 * h);
        assert(-d < 2 * (d * q - x) <= d) by (nonlinear_arith)
            requires
                q == (x + h) / d,
                d == 2 * h,
                h >= 1,
        ;
    } else {
        assert(1 * round2(x, n) == round2(x, n));
    }
    if x == 0 && n > 0 {
        let h = p2(n - 1);
        lemma_p2_pos(n - 1);
        assert(h / d == 0) by (nonlinear_arith)
            requires
                d == 2 * h,
                h >= 1,
        ;
    }
}

/// A limited number is the nearest to it in the range.
pub proof fn lemma_clamp_is_the_nearest(x: int, lo: int, hi: int, y: int)
    requires
        lo <= y <= hi,
    ensures
        lo <= clamp(x, lo, hi) <= hi,
        lo <= x <= hi ==> clamp(x, lo, hi) == x,
        abs(x - clamp(x, lo, hi)) <= abs(x - y),
{
}

} // verus!
