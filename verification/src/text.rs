//! Runs of bytes, and text made of them.
use vstd::prelude::*;
use vstd::utf8::{decode_utf8, encode_utf8, encode_utf8_decode_utf8, encode_utf8_valid_utf8, is_ascii_chars, is_ascii_chars_encode_utf8, valid_utf8};

verus! {

/// `core::str::from_utf8`: the text that the bytes encode, if they are UTF-8.
///
/// Trusted to succeed exactly on valid UTF-8, and to give the characters that the
/// bytes encode.
#[verifier::external_body]
pub(crate) fn utf8_text(bytes: &[u8]) -> (r: Option<&str>)
    ensures
        r is Some <==> valid_utf8(bytes@),
        r is Some ==> r->0@ == decode_utf8(bytes@),
{
    core::str::from_utf8(bytes).ok()
}

/// The characters of ASCII bytes.
pub open spec fn ascii(bytes: Seq<u8>) -> Seq<char> {
    Seq::new(bytes.len(), |i: int| bytes[i] as char)
}

/// ASCII bytes encode their own characters.
proof fn lemma_ascii(bytes: Seq<u8>)
    requires
        forall|i: int| 0 <= i < bytes.len() ==> #[trigger] bytes[i] < 128,
    ensures
        valid_utf8(bytes),
        decode_utf8(bytes) == ascii(bytes),
{
    let chars = ascii(bytes);
    assert(is_ascii_chars(chars));
    is_ascii_chars_encode_utf8(chars);
    assert(encode_utf8(chars) =~= bytes);
    encode_utf8_valid_utf8(chars);
    encode_utf8_decode_utf8(chars);
}

/// The text of ASCII bytes.
pub fn ascii_text(bytes: &Vec<u8>) -> (r: String)
    requires
        forall|i: int| 0 <= i < bytes@.len() ==> #[trigger] bytes@[i] < 128,
    ensures
        r@ == ascii(bytes@),
{
    proof {
        lemma_ascii(bytes@);
    }
    match utf8_text(bytes.as_slice()) {
        Some(text) => text.to_owned(),
        None => String::new(),
    }
}

/// A hexadecimal digit, as ASCII.
pub open spec fn hex_digit(d: int) -> int {
    if d < 10 {
        0x30 + d
    } else {
        0x57 + d
    }
}

/// A byte as it is shown: a printable ASCII byte as itself, another as an escape
/// with two hexadecimal digits.
pub open spec fn shown(b: u8) -> Seq<u8> {
    if 0x20 <= b <= 0x7E {
        seq![b]
    } else {
        seq![0x5Cu8, 0x78u8, hex_digit(b as int / 16) as u8, hex_digit(b as int % 16) as u8]
    }
}

/// Bytes as they are shown.
pub open spec fn shown_all(bytes: Seq<u8>, n: int) -> Seq<u8>
    decreases n,
{
    if n <= 0 {
        Seq::empty()
    } else {
        shown_all(bytes, n - 1) + shown(bytes[n - 1])
    }
}

/// Add a byte as it is shown.
fn show(out: &mut Vec<u8>, b: u8)
    requires
        forall|i: int| 0 <= i < old(out)@.len() ==> #[trigger] old(out)@[i] < 128,
    ensures
        final(out)@ == old(out)@ + shown(b),
        forall|i: int| 0 <= i < final(out)@.len() ==> #[trigger] final(out)@[i] < 128,
{
    let ghost before = out@;
    if 0x20 <= b && b <= 0x7E {
        out.push(b);
    } else {
        let high = b / 16;
        let low = b % 16;
        out.push(0x5C);
        out.push(0x78);
        out.push(
            if high < 10 {
                0x30 + high
            } else {
                0x57 + high
            },
        );
        out.push(
            if low < 10 {
                0x30 + low
            } else {
                0x57 + low
            },
        );
    }
    assert(out@ =~= before + shown(b));
}

/// Four bytes as they are shown, as text.
pub open spec fn code_name(code: Seq<u8>) -> Seq<char> {
    ascii(shown_all(code, 4))
}

/// Four bytes as they are shown.
pub fn shown_code(code: &[u8; 4]) -> (r: String)
    ensures
        r@ == code_name(code@),
{
    let mut out: Vec<u8> = Vec::new();
    let mut i: usize = 0;
    while i < 4
        invariant
            i <= 4,
            out@ == shown_all(code@, i as int),
            forall|k: int| 0 <= k < out@.len() ==> #[trigger] out@[k] < 128,
        decreases 4 - i,
    {
        show(&mut out, code[i]);
        i = i + 1;
    }
    ascii_text(&out)
}

/// A number in decimal digits, as ASCII.
pub open spec fn decimal(n: int) -> Seq<u8>
    decreases n,
{
    if n < 10 {
        seq![(0x30 + n) as u8]
    } else {
        decimal(n / 10).push((0x30 + n % 10) as u8)
    }
}

/// A number in decimal digits, as text.
pub open spec fn number(n: int) -> Seq<char> {
    ascii(decimal(n))
}

/// A number in decimal digits, as ASCII.
fn digits(n: u128) -> (r: Vec<u8>)
    ensures
        r@ == decimal(n as int),
        forall|i: int| 0 <= i < r@.len() ==> #[trigger] r@[i] < 128,
    decreases n,
{
    let last = 0x30 + (n % 10) as u8;
    let mut out = if n < 10 {
        Vec::new()
    } else {
        digits(n / 10)
    };
    out.push(last);
    assert(out@ =~= decimal(n as int));
    out
}

/// A number in decimal digits, as text.
pub fn number_text(n: u128) -> (r: String)
    ensures
        r@ == number(n as int),
{
    ascii_text(&digits(n))
}

/// A byte as two hexadecimal digits, as text.
pub open spec fn hex(b: u8) -> Seq<char> {
    ascii(seq![hex_digit(b as int / 16) as u8, hex_digit(b as int % 16) as u8])
}

/// A byte as two hexadecimal digits, as text.
pub fn hex_text(b: u8) -> (r: String)
    ensures
        r@ == hex(b),
{
    let high = b / 16;
    let low = b % 16;
    let mut out: Vec<u8> = Vec::new();
    out.push(
        if high < 10 {
            0x30 + high
        } else {
            0x57 + high
        },
    );
    out.push(
        if low < 10 {
            0x30 + low
        } else {
            0x57 + low
        },
    );
    assert(out@ =~= seq![hex_digit(b as int / 16) as u8, hex_digit(b as int % 16) as u8]);
    ascii_text(&out)
}

/// Add bytes at the end of others.
pub fn append_bytes(out: &mut Vec<u8>, bytes: &[u8])
    ensures
        final(out)@ == old(out)@ + bytes@,
{
    let ghost start = out@;
    let mut i: usize = 0;
    while i < bytes.len()
        invariant
            i <= bytes@.len(),
            out@ == start + bytes@.take(i as int),
        decreases bytes@.len() - i,
    {
        out.push(bytes[i]);
        assert(bytes@.take(i + 1) =~= bytes@.take(i as int).push(bytes@[i as int]));
        assert(out@ =~= start + bytes@.take(i + 1));
        i = i + 1;
    }
    assert(bytes@.take(bytes@.len() as int) =~= bytes@);
}

/// A copy of bytes.
pub fn copied(bytes: &[u8]) -> (r: Vec<u8>)
    ensures
        r@ == bytes@,
{
    let mut out: Vec<u8> = Vec::new();
    append_bytes(&mut out, bytes);
    assert(out@ =~= bytes@);
    out
}

/// What decimal digits are read as.
pub open spec fn read_decimal(digits: Seq<u8>) -> int
    decreases digits.len(),
{
    if digits.len() == 0 {
        0
    } else {
        10 * read_decimal(digits.drop_last()) + (digits.last() - 0x30)
    }
}

/// A number is written in decimal digits that are read back as it, without a zero before them.
pub proof fn lemma_decimal_reads_back(n: int)
    requires
        n >= 0,
    ensures
        read_decimal(decimal(n)) == n,
        decimal(n).len() >= 1,
        forall|i: int| 0 <= i < decimal(n).len() ==> 0x30 <= #[trigger] decimal(n)[i] <= 0x39,
        n > 0 ==> decimal(n)[0] != 0x30,
    decreases n,
{
    if n >= 10 {
        lemma_decimal_reads_back(n / 10);
        assert(decimal(n).drop_last() =~= decimal(n / 10));
    } else {
        assert(decimal(n).drop_last() =~= Seq::<u8>::empty());
        assert(read_decimal(decimal(n).drop_last()) == 0);
    }
}

/// A hexadecimal digit is one of the ten decimal ones, or a letter from a on.
pub proof fn lemma_hex_digits(d: int)
    requires
        0 <= d < 16,
    ensures
        d < 10 ==> 0x30 <= hex_digit(d) <= 0x39,
        d >= 10 ==> 0x61 <= hex_digit(d) <= 0x66,
        0 < d < 10 ==> hex_digit(d) == hex_digit(d - 1) + 1,
        10 < d ==> hex_digit(d) == hex_digit(d - 1) + 1,
{
}

} // verus!
