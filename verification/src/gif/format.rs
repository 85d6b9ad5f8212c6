//! GIF structure: the logical screen, image descriptors, extensions, interlacing
//! and chains of sub-blocks.
//!
//! Almost every payload of variable length is a chain of sub-blocks: a length
//! byte, that many bytes, and so on until a length of zero.
use crate::error::{ErrorCode, Message, Outcome, PixelsError};
use crate::math::{lemma_p2_values, min, p2, pow2_usize};
use crate::text::{append_bytes, number};
use vstd::prelude::*;

verus! {

/// `GIF87a`.
pub const SIGNATURE_87A: [u8; 6] = [0x47, 0x49, 0x46, 0x38, 0x37, 0x61];

/// `GIF89a`, which adds extensions and transparency.
pub const SIGNATURE_89A: [u8; 6] = [0x47, 0x49, 0x46, 0x38, 0x39, 0x61];

/// Two bytes as a number, the low one first.
pub open spec fn le16(low: u8, high: u8) -> int {
    low + 256 * high
}

/// Two bytes as a number, the low one first.
fn le(low: u8, high: u8) -> (r: u16)
    ensures
        r == le16(low, high),
{
    low as u16 + 256 * (high as u16)
}

/// The entries of a colour table, by a packed field: zero without the flag in the
/// top bit, else two to the power of one more than the low three bits.
pub open spec fn table_size(packed: u8) -> int {
    if packed >= 0x80 {
        p2(packed % 8 + 1)
    } else {
        0
    }
}

/// A colour table has at most 256 entries.
pub proof fn lemma_table_size(packed: u8)
    ensures
        0 <= table_size(packed) <= 256,
{
    lemma_p2_values();
}

/// The entries of a colour table.
fn entries_of(packed: u8) -> (r: usize)
    ensures
        r == table_size(packed),
{
    proof {
        lemma_table_size(packed);
    }
    if packed >= 0x80 {
        pow2_usize((packed % 8) as u32 + 1)
    } else {
        0
    }
}

/// The words of a rectangle without pixels.
pub open spec fn size_fault(what: Seq<char>, width: int, height: int) -> Seq<char> {
    what + number(width) + "x"@ + number(height)
}

/// The logical screen: the canvas every frame is drawn onto.
#[derive(Debug, Clone, Copy, PartialEq, Eq, Structural)]
pub struct Screen {
    /// Canvas width in pixels.
    pub width: u16,
    /// Canvas height in pixels.
    pub height: u16,
    /// Entries in the global colour table, zero if there is none.
    pub global_table_size: usize,
    /// Index into the global table of the background colour.
    pub background: u8,
}

impl Screen {
    /// What seven bytes say.
    pub open spec fn of(bytes: Seq<u8>) -> Screen {
        Screen {
            width: le16(bytes[0], bytes[1]) as u16,
            height: le16(bytes[2], bytes[3]) as u16,
            global_table_size: table_size(bytes[4]) as usize,
            background: bytes[5],
        }
    }

    /// Parse the seven bytes behind the signature. The last one, the pixel aspect
    /// ratio, is not interpreted. A canvas of no pixels is malformed.
    pub fn parse(bytes: &[u8; 7]) -> (r: Outcome<Screen>)
        ensures
            r is Err <==> le16(bytes@[0], bytes@[1]) == 0 || le16(bytes@[2], bytes@[3]) == 0,
            r is Ok ==> r->Ok_0 == Screen::of(bytes@),
            r is Err ==> r->Err_0.kind() == ErrorCode::Malformed,
            r is Err ==> r->Err_0.words() == size_fault(
                "logical screen is "@,
                le16(bytes@[0], bytes@[1]),
                le16(bytes@[2], bytes@[3]),
            ),
    {
        let width = le(bytes[0], bytes[1]);
        let height = le(bytes[2], bytes[3]);
        if width == 0 || height == 0 {
            return Err(
                Message::new("logical screen is ").then_number(width as u64).then_text("x").then_number(
                    height as u64,
                ).malformed(),
            );
        }
        Ok(Screen { width, height, global_table_size: entries_of(bytes[4]), background: bytes[5] })
    }
}

/// How the canvas is treated after a frame is displayed.
#[derive(Debug, Clone, Copy, PartialEq, Eq, Hash, Structural)]
pub enum Disposal {
    /// Not said: the same as [`Disposal::Keep`].
    Unspecified,
    /// Leave the frame in place.
    Keep,
    /// Restore the frame's rectangle to the background colour.
    Background,
    /// Restore the frame's rectangle to what was there before it was drawn.
    Previous,
}

impl Default for Disposal {
    fn default() -> (r: Disposal)
        ensures
            r is Unspecified,
    {
        Disposal::Unspecified
    }
}

impl Disposal {
    /// The disposal of a field. A reserved value is unspecified.
    pub open spec fn of(bits: int) -> Disposal {
        if bits == 1 {
            Disposal::Keep
        } else if bits == 2 {
            Disposal::Background
        } else if bits == 3 {
            Disposal::Previous
        } else {
            Disposal::Unspecified
        }
    }

    /// The disposal of a packed field of a graphic control.
    pub fn from_bits(bits: u8) -> (r: Disposal)
        ensures
            r == Disposal::of(bits as int),
    {
        match bits {
            1 => Disposal::Keep,
            2 => Disposal::Background,
            3 => Disposal::Previous,
            _ => Disposal::Unspecified,
        }
    }
}

/// What a graphic control extension says about the next image.
#[derive(Debug, Clone, Copy, PartialEq, Eq)]
pub struct GraphicControl {
    /// How to dispose of the frame after displaying it.
    pub disposal: Disposal,
    /// Delay before the next frame, in hundredths of a second.
    pub delay_centiseconds: u16,
    /// The palette index that is transparent.
    pub transparent: Option<u8>,
}

impl Default for GraphicControl {
    fn default() -> (r: GraphicControl)
        ensures
            r == GraphicControl::absent(),
    {
        GraphicControl { disposal: Disposal::Unspecified, delay_centiseconds: 0, transparent: None }
    }
}

/// A byte of a payload, zero past its end.
pub open spec fn byte_or_zero(payload: Seq<u8>, at: int) -> u8 {
    if 0 <= at < payload.len() {
        payload[at]
    } else {
        0
    }
}

/// A byte of a payload, zero past its end.
fn at_or_zero(payload: &[u8], at: usize) -> (r: u8)
    ensures
        r == byte_or_zero(payload@, at as int),
{
    if at < payload.len() {
        payload[at]
    } else {
        0
    }
}

impl GraphicControl {
    /// The control of an image that none precedes.
    pub open spec fn absent() -> GraphicControl {
        GraphicControl { disposal: Disposal::Unspecified, delay_centiseconds: 0, transparent: None }
    }

    /// What a payload says.
    pub open spec fn of(payload: Seq<u8>) -> GraphicControl {
        let packed = byte_or_zero(payload, 0);
        GraphicControl {
            disposal: Disposal::of(((packed / 4) % 8) as int),
            delay_centiseconds: le16(byte_or_zero(payload, 1), byte_or_zero(payload, 2)) as u16,
            transparent: if packed % 2 == 1 {
                Some(byte_or_zero(payload, 3))
            } else {
                None
            },
        }
    }

    /// Parse a payload of four bytes. Bytes that are not there read as zero.
    pub fn parse(payload: &[u8]) -> (r: GraphicControl)
        ensures
            r == GraphicControl::of(payload@),
    {
        let packed = at_or_zero(payload, 0);
        let delay = le(at_or_zero(payload, 1), at_or_zero(payload, 2));
        let index = at_or_zero(payload, 3);
        GraphicControl {
            disposal: Disposal::from_bits((packed / 4) % 8),
            delay_centiseconds: delay,
            transparent: if packed % 2 == 1 {
                Some(index)
            } else {
                None
            },
        }
    }
}

/// Where a frame sits on the canvas and how it is coded.
#[derive(Debug, Clone, Copy, PartialEq, Eq, Structural)]
pub struct ImageDescriptor {
    /// Left edge, in canvas coordinates.
    pub left: u16,
    /// Top edge, in canvas coordinates.
    pub top: u16,
    /// Frame width.
    pub width: u16,
    /// Frame height.
    pub height: u16,
    /// Entries in the local colour table, zero if there is none.
    pub local_table_size: usize,
    /// Whether the frame's rows are stored interlaced.
    pub interlaced: bool,
}

impl ImageDescriptor {
    /// What nine bytes say.
    pub open spec fn of(bytes: Seq<u8>) -> ImageDescriptor {
        ImageDescriptor {
            left: le16(bytes[0], bytes[1]) as u16,
            top: le16(bytes[2], bytes[3]) as u16,
            width: le16(bytes[4], bytes[5]) as u16,
            height: le16(bytes[6], bytes[7]) as u16,
            local_table_size: table_size(bytes[8]) as usize,
            interlaced: (bytes[8] / 64) % 2 == 1,
        }
    }

    /// Parse the nine bytes of an image descriptor. A frame of no pixels is
    /// malformed.
    pub fn parse(bytes: &[u8; 9]) -> (r: Outcome<ImageDescriptor>)
        ensures
            r is Err <==> le16(bytes@[4], bytes@[5]) == 0 || le16(bytes@[6], bytes@[7]) == 0,
            r is Ok ==> r->Ok_0 == ImageDescriptor::of(bytes@),
            r is Err ==> r->Err_0.kind() == ErrorCode::Malformed,
            r is Err ==> r->Err_0.words() == size_fault(
                "frame is "@,
                le16(bytes@[4], bytes@[5]),
                le16(bytes@[6], bytes@[7]),
            ),
    {
        let width = le(bytes[4], bytes[5]);
        let height = le(bytes[6], bytes[7]);
        if width == 0 || height == 0 {
            return Err(
                Message::new("frame is ").then_number(width as u64).then_text("x").then_number(
                    height as u64,
                ).malformed(),
            );
        }
        Ok(
            ImageDescriptor {
                left: le(bytes[0], bytes[1]),
                top: le(bytes[2], bytes[3]),
                width,
                height,
                local_table_size: entries_of(bytes[8]),
                interlaced: (bytes[8] / 64) % 2 == 1,
            },
        )
    }
}

/// The first row of a pass.
pub open spec fn pass_start(pass: int) -> int {
    if pass == 0 {
        0
    } else if pass == 1 {
        4
    } else if pass == 2 {
        2
    } else {
        1
    }
}

/// The rows from one row of a pass to the next.
pub open spec fn pass_step(pass: int) -> int {
    if pass <= 1 {
        8
    } else if pass == 2 {
        4
    } else {
        2
    }
}

/// The rows of a pass in an image of `height` rows.
pub open spec fn pass_rows(pass: int, height: int) -> int {
    if 0 <= pass < 4 && height > pass_start(pass) {
        (height - pass_start(pass) + pass_step(pass) - 1) / pass_step(pass)
    } else {
        0
    }
}

/// The row that a pass stores at an index: every eighth from 0, every eighth from
/// 4, every fourth from 2, every second from 1. None past the image, or in a fifth
/// pass.
pub fn interlaced_row(pass: usize, index: u32, height: u32) -> (r: Option<u32>)
    requires
        pass < 4 ==> pass_start(pass as int) + index * pass_step(pass as int) <= u32::MAX,
    ensures
        r is Some <==> pass < 4 && pass_start(pass as int) + index * pass_step(pass as int) < height,
        r is Some ==> r->0 == pass_start(pass as int) + index * pass_step(pass as int),
{
    let row: u32 = match pass {
        0 => index * 8,
        1 => 4 + index * 8,
        2 => 2 + index * 4,
        3 => 1 + index * 2,
        _ => {
            return None;
        },
    };
    if row < height {
        Some(row)
    } else {
        None
    }
}

/// How many rows a pass has in an image of `height` rows.
pub fn interlaced_pass_rows(pass: usize, height: u32) -> (r: u32)
    ensures
        r == pass_rows(pass as int, height as int),
{
    let (start, step): (u32, u32) = match pass {
        0 => (0, 8),
        1 => (4, 8),
        2 => (2, 4),
        3 => (1, 2),
        _ => {
            return 0;
        },
    };
    if height > start {
        if step == 8 {
            (height - start - 1) / 8 + 1
        } else if step == 4 {
            (height - start - 1) / 4 + 1
        } else {
            (height - start - 1) / 2 + 1
        }
    } else {
        0
    }
}

/// The position among the stored rows of a row of an interlaced image.
pub open spec fn stored_at(row: int, height: int) -> int {
    if row % 8 == 0 {
        row / 8
    } else if row % 8 == 4 {
        pass_rows(0, height) + row / 8
    } else if row % 4 == 2 {
        pass_rows(0, height) + pass_rows(1, height) + row / 4
    } else {
        pass_rows(0, height) + pass_rows(1, height) + pass_rows(2, height) + row / 2
    }
}

/// The rows of the passes, by the quotient and the remainder of the height.
pub proof fn lemma_pass_rows(height: int)
    requires
        height >= 0,
    ensures
        pass_rows(0, height) == (height + 7) / 8,
        pass_rows(1, height) == (height + 3) / 8,
        pass_rows(2, height) == (height + 1) / 4,
        pass_rows(3, height) == height / 2,
        (height + 7) / 8 + (height + 3) / 8 + (height + 1) / 4 + height / 2 == height,
{
    let (q, r) = (height / 8, height % 8);
    assert(height == 8 * q + r);
    assert((height + 7) / 8 == q + (r + 7) / 8);
    assert((height + 3) / 8 == q + (r + 3) / 8);
    assert((height + 1) / 4 == 2 * q + (r + 1) / 4);
    assert(height / 2 == 4 * q + r / 2);
}

/// The four passes hold every row of an image, and together no more.
pub proof fn lemma_passes_cover(height: int)
    requires
        height >= 0,
    ensures
        pass_rows(0, height) + pass_rows(1, height) + pass_rows(2, height) + pass_rows(3, height) == height,
{
    lemma_pass_rows(height);
}

/// A row of an interlaced image is stored among as many rows as there are.
pub proof fn lemma_stored_within(row: int, height: int)
    requires
        0 <= row < height,
    ensures
        0 <= stored_at(row, height) < height,
{
    lemma_in_pass(row, height);
    lemma_passes_cover(height);
    assert(pass_rows(0, height) >= 0 && pass_rows(1, height) >= 0 && pass_rows(2, height) >= 0 && pass_rows(3, height)
        >= 0) by {
        lemma_pass_rows(height);
    }
}

/// The pass that a row of an interlaced image is in.
spec fn pass_of(row: int) -> int {
    if row % 8 == 0 {
        0
    } else if row % 8 == 4 {
        1
    } else if row % 4 == 2 {
        2
    } else {
        3
    }
}

/// The rows of the passes before one.
spec fn rows_before(pass: int, height: int) -> int {
    if pass == 0 {
        0
    } else if pass == 1 {
        pass_rows(0, height)
    } else if pass == 2 {
        pass_rows(0, height) + pass_rows(1, height)
    } else if pass == 3 {
        pass_rows(0, height) + pass_rows(1, height) + pass_rows(2, height)
    } else {
        pass_rows(0, height) + pass_rows(1, height) + pass_rows(2, height) + pass_rows(3, height)
    }
}

/// No two rows of an interlaced image are stored at one place.
pub proof fn lemma_stored_once(a: int, b: int, height: int)
    requires
        0 <= a < height,
        0 <= b < height,
        stored_at(a, height) == stored_at(b, height),
    ensures
        a == b,
{
    assert(pass_of(a) == pass_of(b)) by {
        lemma_in_pass(a, height);
        lemma_in_pass(b, height);
        assert(pass_rows(0, height) >= 0 && pass_rows(1, height) >= 0 && pass_rows(2, height) >= 0 && pass_rows(
            3,
            height,
        ) >= 0) by {
            lemma_pass_rows(height);
        }
    }
    if a % 8 == 0 || a % 8 == 4 {
        assert(a / 8 == b / 8);
    } else if a % 4 == 2 {
        assert(a / 4 == b / 4);
    } else {
        assert(a / 2 == b / 2 && a % 2 == 1 && b % 2 == 1);
    }
}

/// A row is stored among the rows of its pass.
proof fn lemma_in_pass(row: int, height: int)
    requires
        0 <= row < height,
    ensures
        0 <= pass_of(row) <= 3,
        rows_before(pass_of(row), height) <= stored_at(row, height) < rows_before(pass_of(row) + 1, height),
{
    if row % 8 == 0 {
        assert(row / 8 < pass_rows(0, height)) by {
            lemma_pass_rows(height);
        }
    } else if row % 8 == 4 {
        assert(row / 8 < pass_rows(1, height)) by {
            lemma_pass_rows(height);
        }
    } else if row % 4 == 2 {
        assert(row / 4 < pass_rows(2, height)) by {
            lemma_pass_rows(height);
        }
    } else {
        assert(row / 2 < pass_rows(3, height)) by {
            lemma_pass_rows(height);
        }
    }
}

/// The row of an interlaced image that is stored at a position. None past the
/// last.
#[verifier::spinoff_prover]
#[verifier::rlimit(40)]
pub fn deinterlace(stored: u32, height: u32) -> (r: Option<u32>)
    ensures
        r is Some <==> stored < height,
        r is Some ==> r->0 < height && stored_at(r->0 as int, height as int) == stored,
{
    let first = interlaced_pass_rows(0, height);
    let second = interlaced_pass_rows(1, height);
    let third = interlaced_pass_rows(2, height);
    proof {
        lemma_pass_rows(height as int);
    }
    if stored < first {
        interlaced_row(0, stored, height)
    } else if stored < first + second {
        interlaced_row(1, stored - first, height)
    } else if stored < first + second + third {
        interlaced_row(2, stored - first - second, height)
    } else if stored < height {
        interlaced_row(3, stored - first - second - third, height)
    } else {
        None
    }
}

/// A chain of sub-blocks at the start of some bytes: its payload, of at most `room`
/// bytes, and what is behind it. None where the bytes end inside of it or the
/// payload is longer.
pub open spec fn chain(s: Seq<u8>, room: int) -> Option<(Seq<u8>, Seq<u8>)>
    decreases s.len(),
{
    if s.len() == 0 {
        None
    } else if s[0] == 0 {
        Some((Seq::empty(), s.skip(1)))
    } else if s[0] > room || s.len() < 1 + s[0] {
        None
    } else {
        match chain(s.skip(1 + s[0]), room - s[0]) {
            Some((payload, rest)) => Some((s.subrange(1, 1 + s[0]) + payload, rest)),
            None => None,
        }
    }
}

/// What is behind a chain of sub-blocks. None where the bytes end inside of it.
pub open spec fn past_chain(s: Seq<u8>) -> Option<Seq<u8>>
    decreases s.len(),
{
    if s.len() == 0 {
        None
    } else if s[0] == 0 {
        Some(s.skip(1))
    } else if s.len() < 1 + s[0] {
        None
    } else {
        past_chain(s.skip(1 + s[0]))
    }
}

/// Where a stream stands that no chain of at most `room` bytes could be read from:
/// behind the length of the sub-block that is too much, or used up.
pub open spec fn chain_stop(s: Seq<u8>, room: int) -> Seq<u8>
    decreases s.len(),
{
    if s.len() == 0 || s[0] == 0 {
        s
    } else if s[0] > room {
        s.skip(1)
    } else if s.len() < 1 + s[0] {
        Seq::empty()
    } else {
        chain_stop(s.skip(1 + s[0]), room - s[0])
    }
}

/// The words of bytes that no chain of at most `room` bytes could be read from, of
/// the `limit` there may be.
pub open spec fn chain_fault(s: Seq<u8>, room: int, limit: int) -> Seq<char>
    decreases s.len(),
{
    if s.len() == 0 || s[0] == 0 {
        "the stream ends inside a sub-block chain"@
    } else if s[0] > room {
        "sub-block chain exceeds the "@ + number(limit) + " byte limit"@
    } else if s.len() < 1 + s[0] {
        "the stream ends inside a sub-block"@
    } else {
        chain_fault(s.skip(1 + s[0]), room - s[0], limit)
    }
}

/// The words of bytes that no chain could be skipped in.
pub open spec fn skip_fault(s: Seq<u8>) -> Seq<char>
    decreases s.len(),
{
    if s.len() == 0 || s[0] == 0 {
        "the stream ends inside a sub-block chain"@
    } else if s.len() < 1 + s[0] {
        "the stream ends inside a sub-block"@
    } else {
        skip_fault(s.skip(1 + s[0]))
    }
}

/// A payload as a chain of sub-blocks, each of 255 bytes but the last.
pub open spec fn chained(payload: Seq<u8>) -> Seq<u8>
    decreases payload.len(),
{
    if payload.len() == 0 {
        seq![0u8]
    } else {
        let n = min(255, payload.len() as int);
        seq![n as u8] + payload.take(n) + chained(payload.skip(n))
    }
}

/// What is behind a chain is shorter than what it is part of.
pub proof fn lemma_chain_shortens(s: Seq<u8>, room: int)
    ensures
        chain(s, room) matches Some((_, rest)) ==> rest.len() < s.len(),
        past_chain(s) matches Some(rest) ==> rest.len() < s.len(),
    decreases s.len(),
{
    if s.len() > 0 && s[0] != 0 && s.len() >= 1 + s[0] {
        lemma_chain_shortens(s.skip(1 + s[0]), room - s[0]);
    }
}

/// Skipping a chain stops where reading it does.
pub proof fn lemma_skip_is_read(s: Seq<u8>, room: int)
    ensures
        chain(s, room) is Some ==> past_chain(s) == Some((chain(s, room)->0).1),
    decreases s.len(),
{
    if s.len() > 0 && s[0] != 0 && s[0] <= room && s.len() >= 1 + s[0] {
        lemma_skip_is_read(s.skip(1 + s[0]), room - s[0]);
    }
}

/// Reading a written chain gives its payload back and stops behind it, and a chain
/// that is longer than the room is refused.
pub proof fn lemma_chain_round_trip(payload: Seq<u8>, rest: Seq<u8>, room: int)
    requires
        room >= 0,
    ensures
        payload.len() <= room ==> chain(chained(payload) + rest, room) == Some((payload, rest)),
        payload.len() > room ==> chain(chained(payload) + rest, room) is None,
    decreases payload.len(),
{
    let s = chained(payload) + rest;
    if payload.len() == 0 {
        assert(s.skip(1) =~= rest);
        assert(payload =~= Seq::<u8>::empty());
    } else {
        let n = min(255, payload.len() as int);
        assert(s[0] == n);
        assert(s.skip(1 + n) =~= chained(payload.skip(n)) + rest);
        assert(s.subrange(1, 1 + n) =~= payload.take(n));
        if n <= room {
            lemma_chain_round_trip(payload.skip(n), rest, room - n);
        }
        assert(payload.take(n) + payload.skip(n) =~= payload);
    }
}

/// What is left of a stream that ends too soon: nothing.
pub fn used_up<'a>(bytes: &'a [u8]) -> (r: &'a [u8])
    ensures
        r@ == Seq::<u8>::empty(),
{
    let r = vstd::slice::slice_subrange(bytes, bytes.len(), bytes.len());
    assert(r@ =~= Seq::<u8>::empty());
    r
}

/// Read a chain of sub-blocks, joining their payloads and moving past it. A stream
/// that ends inside of it, or more than `limit` bytes in all, is malformed.
pub fn read_sub_blocks(source: &mut &[u8], limit: usize) -> (r: Outcome<Vec<u8>>)
    ensures
        ({
            let m = chain(old(source)@, limit as int);
            &&& r is Ok <==> m is Some
            &&& r is Ok ==> r->Ok_0@ == (m->0).0 && final(source)@ == (m->0).1
            &&& r is Err ==> final(source)@ == chain_stop(old(source)@, limit as int)
        }),
        r is Err ==> r->Err_0.kind() == ErrorCode::Malformed,
        r is Err ==> r->Err_0.words() == chain_fault(old(source)@, limit as int, limit as int),
{
    let ghost all = source@;
    let mut out: Vec<u8> = Vec::new();
    let mut rest: &[u8] = *source;
    loop
        invariant
            all == old(source)@,
            out@.len() <= limit,
            chain(all, limit as int) == (match chain(rest@, limit - out@.len()) {
                Some((payload, behind)) => Some((out@ + payload, behind)),
                None => None,
            }),
            chain_stop(all, limit as int) == chain_stop(rest@, limit - out@.len()),
            chain_fault(all, limit as int, limit as int) == chain_fault(rest@, limit - out@.len(), limit as int),
        decreases rest@.len(),
    {
        if rest.len() == 0 {
            *source = rest;
            return Err(PixelsError::malformed("the stream ends inside a sub-block chain"));
        }
        let length = rest[0] as usize;
        if length == 0 {
            assert(out@ + Seq::<u8>::empty() =~= out@);
            *source = vstd::slice::slice_subrange(rest, 1, rest.len());
            return Ok(out);
        }
        if length > limit - out.len() {
            *source = vstd::slice::slice_subrange(rest, 1, rest.len());
            assert(source@ =~= rest@.skip(1));
            return Err(
                Message::new("sub-block chain exceeds the ").then_number(limit as u64).then_text(
                    " byte limit",
                ).malformed(),
            );
        }
        if rest.len() - 1 < length {
            *source = used_up(rest);
            return Err(PixelsError::malformed("the stream ends inside a sub-block"));
        }
        let ghost before = out@;
        let ghost was = rest@;
        append_bytes(&mut out, vstd::slice::slice_subrange(rest, 1, 1 + length));
        rest = vstd::slice::slice_subrange(rest, 1 + length, rest.len());
        proof {
            assert(rest@ =~= was.skip(1 + length));
            if let Some((payload, behind)) = chain(rest@, limit - out@.len()) {
                assert(before + (was.subrange(1, 1 + length) + payload) =~= out@ + payload);
            }
        }
    }
}

/// Move past a chain of sub-blocks. A stream that ends inside of it is malformed.
pub fn skip_sub_blocks(source: &mut &[u8]) -> (r: Outcome<()>)
    ensures
        r is Ok <==> past_chain(old(source)@) is Some,
        r is Ok ==> final(source)@ == past_chain(old(source)@)->0,
        r is Err ==> final(source)@ == Seq::<u8>::empty(),
        r is Err ==> r->Err_0.kind() == ErrorCode::Malformed,
        r is Err ==> r->Err_0.words() == skip_fault(old(source)@),
{
    let ghost all = source@;
    let mut rest: &[u8] = *source;
    loop
        invariant
            all == old(source)@,
            past_chain(all) == past_chain(rest@),
            skip_fault(all) == skip_fault(rest@),
        decreases rest@.len(),
    {
        if rest.len() == 0 {
            *source = used_up(rest);
            return Err(PixelsError::malformed("the stream ends inside a sub-block chain"));
        }
        let length = rest[0] as usize;
        if length == 0 {
            *source = vstd::slice::slice_subrange(rest, 1, rest.len());
            return Ok(());
        }
        if rest.len() - 1 < length {
            *source = used_up(rest);
            return Err(PixelsError::malformed("the stream ends inside a sub-block"));
        }
        let ghost was = rest@;
        rest = vstd::slice::slice_subrange(rest, 1 + length, rest.len());
        assert(rest@ =~= was.skip(1 + length));
    }
}

/// Write a payload as a chain of sub-blocks, ended by a zero byte.
pub fn write_sub_blocks(out: &mut Vec<u8>, payload: &[u8])
    ensures
        final(out)@ == old(out)@ + chained(payload@),
{
    let mut rest: &[u8] = payload;
    let ghost before = out@;
    assert(before + chained(rest@) == out@ + chained(rest@));
    while rest.len() > 0
        invariant
            before + chained(payload@) == out@ + chained(rest@),
        decreases rest@.len(),
    {
        let n: usize = if rest.len() < 255 {
            rest.len()
        } else {
            255
        };
        let ghost was = rest@;
        let ghost wrote = out@;
        out.push(n as u8);
        append_bytes(out, vstd::slice::slice_subrange(rest, 0, n));
        rest = vstd::slice::slice_subrange(rest, n, rest.len());
        proof {
            assert(rest@ =~= was.skip(n as int));
            assert(was.subrange(0, n as int) =~= was.take(n as int));
            assert(out@ + chained(rest@) =~= wrote + (seq![n as u8] + was.take(n as int) + chained(was.skip(n as int))));
        }
    }
    out.push(0);
    assert(out@ =~= before + chained(payload@));
}

} // verus!
