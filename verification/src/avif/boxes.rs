//! The box layer: the grammar that every other AVIF structure is written in.
//!
//! Everything in the file is a box: a length, a four-character type, and a payload
//! that is either more boxes or leaf data. Every read is checked. The two classic
//! failures of such a parser are a box that declares more bytes than its parent
//! holds, and a box that declares fewer than its own header, which would make a
//! naive parser loop forever; both are malformed here.
use crate::error::{ErrorCode, Message, Outcome, PixelsError};
use crate::math::min;
use crate::text::{code_name, number, shown_code, utf8_text};
use vstd::prelude::*;
use vstd::utf8::{decode_utf8, valid_utf8};

verus! {

/// A four-character box or brand identifier, compared as bytes.
#[derive(Debug, Clone, Copy, PartialEq, Eq, Hash)]
pub struct FourCc(pub [u8; 4]);

/// `uuid`: the type of a box whose payload starts with a 16-byte user type.
pub const UUID: [u8; 4] = [0x75, 0x75, 0x69, 0x64];

impl View for FourCc {
    type V = Seq<u8>;

    open spec fn view(&self) -> Seq<u8> {
        self.0@
    }
}

impl FourCc {
    /// The identifier made of these four bytes.
    pub fn new(bytes: &[u8; 4]) -> (r: FourCc)
        ensures
            r@ == bytes@,
    {
        FourCc(*bytes)
    }

    /// Whether the identifier is made of these four bytes.
    pub fn is(&self, bytes: &[u8; 4]) -> (r: bool)
        ensures
            r == (self@ == bytes@),
    {
        let r = self.0[0] == bytes[0] && self.0[1] == bytes[1] && self.0[2] == bytes[2] && self.0[3] == bytes[3];
        proof {
            if r {
                assert(self@ =~= bytes@);
            }
        }
        r
    }

    /// The identifier as text: printable ASCII as itself, another byte as an escape.
    pub fn to_string(&self) -> (r: String)
        ensures
            r@ == code_name(self@),
    {
        shown_code(&self.0)
    }
}

/// A box's type and where its payload stands in the file.
#[derive(Debug, Clone, Copy, PartialEq, Eq)]
pub struct BoxHeader {
    /// The type.
    pub kind: FourCc,
    /// Where the payload starts.
    pub payload_start: usize,
    /// The payload's length, without the header.
    pub payload_len: usize,
}

impl BoxHeader {
    /// Where the box ends.
    pub fn end(&self) -> (r: usize)
        ensures
            r == min(self.payload_start + self.payload_len, usize::MAX as int),
    {
        if self.payload_len <= usize::MAX - self.payload_start {
            self.payload_start + self.payload_len
        } else {
            usize::MAX
        }
    }
}

/// What a box header says.
#[verifier::ext_equal]
pub struct BoxAt {
    /// The type.
    pub kind: Seq<u8>,
    /// Where the payload starts.
    pub start: int,
    /// Where the payload ends.
    pub end: int,
}

impl View for BoxHeader {
    type V = BoxAt;

    open spec fn view(&self) -> BoxAt {
        BoxAt {
            kind: self.kind@,
            start: self.payload_start as int,
            end: self.payload_start + self.payload_len,
        }
    }
}

/// The big-endian number in `n` bytes.
pub open spec fn be(f: Seq<u8>, pos: int, n: int) -> int
    decreases n,
{
    if n <= 0 {
        0
    } else {
        be(f, pos, n - 1) * 256 + f[pos + n - 1]
    }
}

/// The words of a read of `n` bytes at `pos` that does not fit before `end`.
pub open spec fn read_fault(n: int, pos: int, end: int) -> Seq<char> {
    if pos + n > usize::MAX {
        "a "@ + number(n) + "-byte read overflows the file offset"@
    } else {
        "a "@ + number(n) + "-byte read at offset "@ + number(pos) + " runs past the end of its box, which holds "@
            + number(end - pos)
    }
}

/// The words of a read of an identifier or a field whose width is `size` bytes, which
/// is not one of the widths there are or does not fit before `end`.
pub open spec fn width_fault(size: int, pos: int, end: int) -> Seq<char> {
    if size == 0 || size == 4 || size == 8 {
        read_fault(size, pos, end)
    } else {
        "field width "@ + number(size) + " is not one of 0, 4 or 8"@
    }
}

/// The words of a text that is not UTF-8.
pub open spec fn text_fault() -> Seq<char> {
    "a box string is not valid UTF-8"@
}

/// How many bytes a box's header takes: eight, eight more for a long size, and
/// sixteen more for a user type.
pub open spec fn header_len(f: Seq<u8>, pos: int) -> int {
    (if be(f, pos, 4) == 1 {
        16int
    } else {
        8
    }) + if f.subrange(pos + 4, pos + 8) == UUID@ {
        16int
    } else {
        0
    }
}

/// How many bytes a box declares, its header included: a size of zero means all
/// the bytes up to `end`, and a size of one that a long size follows the type.
pub open spec fn box_len(f: Seq<u8>, pos: int, end: int) -> int {
    let size = be(f, pos, 4);
    if size == 1 {
        be(f, pos + 8, 8)
    } else if size == 0 {
        end - pos
    } else {
        size
    }
}

/// The box at `pos`, where it holds its own header and keeps within `end`.
pub open spec fn box_at(f: Seq<u8>, pos: int, end: int) -> Option<BoxAt> {
    let len = box_len(f, pos, end);
    if header_len(f, pos) <= len && pos + len <= end {
        Some(BoxAt { kind: f.subrange(pos + 4, pos + 8), start: pos + header_len(f, pos), end: pos + len })
    } else {
        None
    }
}

/// Where the cursor stands behind a header that declares no box: past as much of it
/// as there is room for, but no further than a size that cannot be addressed.
pub open spec fn header_stop(f: Seq<u8>, pos: int, end: int) -> int {
    let long = be(f, pos, 4) == 1;
    if pos + header_len(f, pos) <= end && !(long && box_len(f, pos, end) > usize::MAX) {
        pos + header_len(f, pos)
    } else if long && pos + 16 <= end {
        pos + 16
    } else {
        pos + 8
    }
}

/// The words of a header at `pos` that declares no box.
pub open spec fn header_fault(f: Seq<u8>, pos: int, end: int) -> Seq<char> {
    let long = be(f, pos, 4) == 1;
    let start = "box '"@ + code_name(f.subrange(pos + 4, pos + 8));
    let header = header_len(f, pos);
    let total = box_len(f, pos, end);
    if long && pos + 16 > end {
        read_fault(8, pos + 8, end)
    } else if long && total > usize::MAX {
        start + "' declares "@ + number(total) + " bytes, more than this platform can address"@
    } else if pos + header > end {
        read_fault(16, pos + header - 16, end)
    } else if total < header {
        start + "' declares "@ + number(total) + " bytes, less than its own "@ + number(header) + "-byte header"@
    } else if pos + total > usize::MAX {
        start + "' extends past the address space"@
    } else {
        start + "' declares "@ + number(total) + " bytes at offset "@ + number(pos) + ", running "@ + number(
            pos + total - end,
        ) + " past the end of its parent"@
    }
}

/// The boxes from `pos` up to `end`; fewer than eight bytes are padding. `None`
/// where one is malformed.
pub open spec fn boxes_in(f: Seq<u8>, pos: int, end: int) -> Option<Seq<BoxAt>>
    decreases end - pos,
{
    if end - pos < 8 {
        Some(Seq::empty())
    } else {
        match box_at(f, pos, end) {
            None => None,
            Some(b) => match boxes_in(f, b.end, end) {
                None => None,
                Some(rest) => Some(seq![b] + rest),
            },
        }
    }
}

/// Every box makes progress, and so does the iteration over them: it ends.
pub proof fn lemma_box_progress(f: Seq<u8>, pos: int, end: int)
    requires
        box_at(f, pos, end) is Some,
    ensures
        pos + 8 <= box_at(f, pos, end)->0.start <= box_at(f, pos, end)->0.end <= end,
{
}

/// The first box of a type from `pos` up to `end`, if there is one. `None` where
/// a box before it is malformed.
pub open spec fn first_of(f: Seq<u8>, pos: int, end: int, kind: Seq<u8>) -> Option<Option<BoxAt>>
    decreases end - pos,
{
    if end - pos < 8 {
        Some(None)
    } else {
        match box_at(f, pos, end) {
            None => None,
            Some(b) => if b.kind == kind {
                Some(Some(b))
            } else {
                first_of(f, b.end, end, kind)
            },
        }
    }
}

/// The words of a malformed box on the way to the first of a type.
pub open spec fn search_fault(f: Seq<u8>, pos: int, end: int, kind: Seq<u8>) -> Seq<char>
    decreases end - pos,
{
    match box_at(f, pos, end) {
        None => header_fault(f, pos, end),
        Some(b) => if end - pos < 8 || b.kind == kind {
            Seq::empty()
        } else {
            search_fault(f, b.end, end, kind)
        },
    }
}

/// Where a search for the first box of a type stops: past that box, at the padding,
/// or behind the header that declares no box.
pub open spec fn search_stop(f: Seq<u8>, pos: int, end: int, kind: Seq<u8>) -> int
    decreases end - pos,
{
    if end - pos < 8 {
        pos
    } else {
        match box_at(f, pos, end) {
            None => header_stop(f, pos, end),
            Some(b) => if b.kind == kind {
                b.end
            } else {
                search_stop(f, b.end, end, kind)
            },
        }
    }
}

/// Where the text at `pos` ends: at its terminator, or at `end`.
pub open spec fn text_end(f: Seq<u8>, pos: int, end: int) -> int
    decreases end - pos,
{
    if pos >= end || f[pos] == 0 {
        pos
    } else {
        text_end(f, pos + 1, end)
    }
}

/// Where to go on after the text at `pos`: past its terminator.
pub open spec fn past_text(f: Seq<u8>, pos: int, end: int) -> int {
    let stop = text_end(f, pos, end);
    if stop < end {
        stop + 1
    } else {
        stop
    }
}

/// A text ends within its bounds.
pub proof fn lemma_text_end(f: Seq<u8>, pos: int, end: int)
    requires
        pos <= end,
    ensures
        pos <= text_end(f, pos, end) <= end,
    decreases end - pos,
{
    if !(pos >= end || f[pos] == 0) {
        lemma_text_end(f, pos + 1, end);
    }
}

/// A big-endian number of `n` bytes is below `256^n`.
pub proof fn lemma_be(f: Seq<u8>, pos: int)
    ensures
        0 <= be(f, pos, 1) < 0x100,
        0 <= be(f, pos, 2) < 0x1_0000,
        0 <= be(f, pos, 4) < 0x1_0000_0000,
        0 <= be(f, pos, 8) < 0x1_0000_0000_0000_0000,
        be(f, pos, 1) == f[pos],
        be(f, pos, 2) == f[pos] * 256 + f[pos + 1],
        be(f, pos, 4) == be(f, pos, 2) * 0x1_0000 + be(f, pos + 2, 2),
        be(f, pos, 8) == be(f, pos, 4) * 0x1_0000_0000 + be(f, pos + 4, 4),
{
    reveal_with_fuel(be, 9);
}

/// A checked cursor over a range of the file.
#[derive(Debug, Clone, Copy)]
pub struct Reader<'a> {
    file: &'a [u8],
    end: usize,
    pos: usize,
}

impl<'a> Reader<'a> {
    /// The file.
    pub closed spec fn bytes(&self) -> Seq<u8> {
        self.file@
    }

    /// The cursor.
    pub closed spec fn at(&self) -> int {
        self.pos as int
    }

    /// The end of the range.
    pub closed spec fn limit(&self) -> int {
        self.end as int
    }

    /// The cursor and the range are within the file.
    pub closed spec fn wf(&self) -> bool {
        self.pos <= self.end <= self.file@.len()
    }

    /// What is well formed is within the file.
    pub proof fn lemma_wf(&self)
        requires
            self.wf(),
        ensures
            0 <= self.at() <= self.limit() <= self.bytes().len() <= usize::MAX,
    {
        assert(self.file@.len() == self.file.len());
    }

    /// The same range, with the cursor elsewhere in it.
    pub open spec fn moved(&self, was: Reader<'a>) -> bool {
        &&& self.wf()
        &&& self.bytes() == was.bytes()
        &&& self.limit() == was.limit()
        &&& was.at() <= self.at()
    }

    /// A reader over the whole of `file`.
    pub fn new(file: &'a [u8]) -> (r: Reader<'a>)
        ensures
            r.wf(),
            r.bytes() == file@,
            r.at() == 0,
            r.limit() == file@.len(),
    {
        Reader { file, end: file.len(), pos: 0 }
    }

    /// A reader over `file[start..end]`, as much of it as the file has.
    pub fn window(file: &'a [u8], start: usize, end: usize) -> (r: Reader<'a>)
        ensures
            r.wf(),
            r.bytes() == file@,
            r.limit() == min(end as int, file@.len() as int),
            r.at() == min(start as int, r.limit()),
    {
        let stop = if end < file.len() {
            end
        } else {
            file.len()
        };
        let first = if start < stop {
            start
        } else {
            stop
        };
        Reader { file, end: stop, pos: first }
    }

    /// The file.
    pub fn file(&self) -> (r: &'a [u8])
        ensures
            r@ == self.bytes(),
    {
        self.file
    }

    /// The cursor.
    pub fn position(&self) -> (r: usize)
        ensures
            r == self.at(),
    {
        self.pos
    }

    /// How many bytes are left.
    pub fn remaining(&self) -> (r: usize)
        requires
            self.wf(),
        ensures
            r == self.limit() - self.at(),
    {
        self.end - self.pos
    }

    /// Whether none is left.
    pub fn is_empty(&self) -> (r: bool)
        requires
            self.wf(),
        ensures
            r == (self.limit() == self.at()),
    {
        self.end == self.pos
    }

    /// The bytes that are left.
    pub fn rest(&self) -> (r: &'a [u8])
        requires
            self.wf(),
        ensures
            r@ == self.bytes().subrange(self.at(), self.limit()),
    {
        vstd::slice::slice_subrange(self.file, self.pos, self.end)
    }

    /// The error of a read of `len` bytes, of which fewer are left.
    fn short(&self, len: usize) -> (e: PixelsError)
        requires
            self.wf(),
        ensures
            e.kind() == ErrorCode::Malformed,
            e.words() == read_fault(len as int, self.at(), self.limit()),
    {
        if len > usize::MAX - self.pos {
            Message::new("a ").then_number(len as u64).then_text("-byte read overflows the file offset").malformed()
        } else {
            Message::new("a ").then_number(len as u64).then_text("-byte read at offset ").then_number(
                self.pos as u64,
            ).then_text(" runs past the end of its box, which holds ").then_number(
                (self.end - self.pos) as u64,
            ).malformed()
        }
    }

    /// Take `len` bytes. Fewer left is malformed, and takes none.
    pub fn take(&mut self, len: usize) -> (r: Outcome<&'a [u8]>)
        requires
            old(self).wf(),
        ensures
            r is Ok <==> old(self).at() + len <= old(self).limit(),
            r is Err ==> r->Err_0.kind() == ErrorCode::Malformed && *final(self) == *old(self),
            r is Err ==> r->Err_0.words() == read_fault(len as int, old(self).at(), old(self).limit()),
            r is Ok ==> r->Ok_0@ == old(self).bytes().subrange(old(self).at(), old(self).at() + len) && final(self).at()
                == old(self).at() + len,
            final(self).moved(*old(self)),
    {
        if len > self.end - self.pos {
            return Err(self.short(len));
        }
        let bytes = vstd::slice::slice_subrange(self.file, self.pos, self.pos + len);
        self.pos = self.pos + len;
        Ok(bytes)
    }

    /// Pass over `len` bytes. Fewer left is malformed, and passes over none.
    pub fn skip(&mut self, len: usize) -> (r: Outcome<()>)
        requires
            old(self).wf(),
        ensures
            r is Ok <==> old(self).at() + len <= old(self).limit(),
            r is Err ==> r->Err_0.kind() == ErrorCode::Malformed && *final(self) == *old(self),
            r is Err ==> r->Err_0.words() == read_fault(len as int, old(self).at(), old(self).limit()),
            r is Ok ==> final(self).at() == old(self).at() + len,
            final(self).moved(*old(self)),
    {
        self.take(len)?;
        Ok(())
    }

    /// Read a byte.
    pub fn u8(&mut self) -> (r: Outcome<u8>)
        requires
            old(self).wf(),
        ensures
            r is Ok <==> old(self).at() + 1 <= old(self).limit(),
            r is Err ==> r->Err_0.kind() == ErrorCode::Malformed && *final(self) == *old(self),
            r is Err ==> r->Err_0.words() == read_fault(1, old(self).at(), old(self).limit()),
            r is Ok ==> r->Ok_0 == old(self).bytes()[old(self).at()] && final(self).at() == old(self).at() + 1,
            final(self).moved(*old(self)),
    {
        let bytes = self.take(1)?;
        Ok(bytes[0])
    }

    /// Read a big-endian number of two bytes.
    pub fn u16(&mut self) -> (r: Outcome<u16>)
        requires
            old(self).wf(),
        ensures
            r is Ok <==> old(self).at() + 2 <= old(self).limit(),
            r is Err ==> r->Err_0.kind() == ErrorCode::Malformed && *final(self) == *old(self),
            r is Err ==> r->Err_0.words() == read_fault(2, old(self).at(), old(self).limit()),
            r is Ok ==> r->Ok_0 == be(old(self).bytes(), old(self).at(), 2) && final(self).at() == old(self).at() + 2,
            final(self).moved(*old(self)),
    {
        let ghost (f, p) = (self.bytes(), self.at());
        let bytes = self.take(2)?;
        proof {
            lemma_be(f, p);
        }
        Ok(bytes[0] as u16 * 256 + bytes[1] as u16)
    }

    /// Read a big-endian number of four bytes.
    pub fn u32(&mut self) -> (r: Outcome<u32>)
        requires
            old(self).wf(),
        ensures
            r is Ok <==> old(self).at() + 4 <= old(self).limit(),
            r is Err ==> r->Err_0.kind() == ErrorCode::Malformed && *final(self) == *old(self),
            r is Err ==> r->Err_0.words() == read_fault(4, old(self).at(), old(self).limit()),
            r is Ok ==> r->Ok_0 == be(old(self).bytes(), old(self).at(), 4) && final(self).at() == old(self).at() + 4,
            final(self).moved(*old(self)),
    {
        let ghost (f, p) = (self.bytes(), self.at());
        let bytes = self.take(4)?;
        proof {
            lemma_be(f, p);
            lemma_be(f, p + 2);
        }
        Ok(((bytes[0] as u32 * 256 + bytes[1] as u32) * 256 + bytes[2] as u32) * 256 + bytes[3] as u32)
    }

    /// Read a big-endian number of eight bytes.
    pub fn u64(&mut self) -> (r: Outcome<u64>)
        requires
            old(self).wf(),
        ensures
            r is Ok <==> old(self).at() + 8 <= old(self).limit(),
            r is Err ==> r->Err_0.kind() == ErrorCode::Malformed && *final(self) == *old(self),
            r is Err ==> r->Err_0.words() == read_fault(8, old(self).at(), old(self).limit()),
            r is Ok ==> r->Ok_0 == be(old(self).bytes(), old(self).at(), 8) && final(self).at() == old(self).at() + 8,
            final(self).moved(*old(self)),
    {
        let ghost (f, p) = (self.bytes(), self.at());
        if self.end - self.pos < 8 {
            return Err(self.short(8));
        }
        let high = self.u32()?;
        let low = self.u32()?;
        proof {
            lemma_be(f, p);
        }
        Ok(high as u64 * 0x1_0000_0000 + low as u64)
    }

    /// Read a big-endian number of `size` bytes: none, which is zero, four or
    /// eight. Another size is malformed.
    pub fn uint(&mut self, size: u8) -> (r: Outcome<u64>)
        requires
            old(self).wf(),
        ensures
            r is Ok <==> (size == 0 || size == 4 || size == 8) && old(self).at() + size <= old(self).limit(),
            r is Err ==> r->Err_0.kind() == ErrorCode::Malformed && *final(self) == *old(self),
            r is Err ==> r->Err_0.words() == width_fault(size as int, old(self).at(), old(self).limit()),
            r is Ok ==> r->Ok_0 == be(old(self).bytes(), old(self).at(), size as int) && final(self).at() == old(self).at() + size,
            final(self).moved(*old(self)),
    {
        if size == 0 {
            Ok(0)
        } else if size == 4 {
            Ok(self.u32()? as u64)
        } else if size == 8 {
            self.u64()
        } else {
            Err(
                Message::new("field width ").then_number(size as u64).then_text(
                    " is not one of 0, 4 or 8",
                ).malformed(),
            )
        }
    }

    /// Read a four-character code.
    pub fn fourcc(&mut self) -> (r: Outcome<FourCc>)
        requires
            old(self).wf(),
        ensures
            r is Ok <==> old(self).at() + 4 <= old(self).limit(),
            r is Err ==> r->Err_0.kind() == ErrorCode::Malformed && *final(self) == *old(self),
            r is Err ==> r->Err_0.words() == read_fault(4, old(self).at(), old(self).limit()),
            r is Ok ==> r->Ok_0@ == old(self).bytes().subrange(old(self).at(), old(self).at() + 4) && final(self).at()
                == old(self).at() + 4,
            final(self).moved(*old(self)),
    {
        let bytes = self.take(4)?;
        let r = FourCc([bytes[0], bytes[1], bytes[2], bytes[3]]);
        assert(r@ =~= bytes@);
        Ok(r)
    }

    /// Read a text up to its terminator, or to the end where it has none. Bytes
    /// that are not UTF-8 are malformed.
    pub fn cstring(&mut self) -> (r: Outcome<&'a str>)
        requires
            old(self).wf(),
        ensures
            ({
                let stop = text_end(old(self).bytes(), old(self).at(), old(self).limit());
                let text = old(self).bytes().subrange(old(self).at(), stop);
                &&& r is Ok <==> valid_utf8(text)
                &&& r is Ok ==> r->Ok_0@ == decode_utf8(text)
            }),
            r is Err ==> r->Err_0.kind() == ErrorCode::Malformed && r->Err_0.words() == text_fault(),
            final(self).at() == past_text(old(self).bytes(), old(self).at(), old(self).limit()),
            final(self).moved(*old(self)),
    {
        let ghost start = self.pos as int;
        let mut stop = self.pos;
        while stop < self.end && self.file[stop] != 0
            invariant
                self.wf(),
                self.pos == start,
                self.pos <= stop <= self.end,
                text_end(self.bytes(), start, self.limit()) == text_end(self.bytes(), stop as int, self.limit()),
            decreases self.end - stop,
        {
            stop = stop + 1;
        }
        let bytes = vstd::slice::slice_subrange(self.file, self.pos, stop);
        self.pos = if stop < self.end {
            stop + 1
        } else {
            stop
        };
        match utf8_text(bytes) {
            Some(text) => Ok(text),
            None => Err(PixelsError::malformed("a box string is not valid UTF-8")),
        }
    }

    /// Read the version and the flags of a full box.
    pub fn full_box(&mut self) -> (r: Outcome<(u8, u32)>)
        requires
            old(self).wf(),
        ensures
            r is Ok <==> old(self).at() + 4 <= old(self).limit(),
            r is Err ==> r->Err_0.kind() == ErrorCode::Malformed && *final(self) == *old(self),
            r is Err ==> r->Err_0.words() == read_fault(4, old(self).at(), old(self).limit()),
            r is Ok ==> ({
                let word = be(old(self).bytes(), old(self).at(), 4);
                r->Ok_0.0 == word / 0x100_0000 && r->Ok_0.1 == word % 0x100_0000
            }),
            r is Ok ==> final(self).at() == old(self).at() + 4,
            final(self).moved(*old(self)),
    {
        let word = self.u32()?;
        Ok(((word / 0x100_0000) as u8, word % 0x100_0000))
    }

    /// Read the next box header and move past the box. None where fewer than
    /// eight bytes are left, which are padding. A box smaller than its own header,
    /// or one that runs past the end, is malformed.
    pub fn next_box(&mut self) -> (r: Option<Outcome<BoxHeader>>)
        requires
            old(self).wf(),
        ensures
            r is None <==> old(self).limit() - old(self).at() < 8,
            r is None ==> *final(self) == *old(self),
            r matches Some(Ok(h)) ==> box_at(old(self).bytes(), old(self).at(), old(self).limit()) == Some(h@)
                && final(self).at() == h@.end,
            r matches Some(Err(e)) ==> box_at(old(self).bytes(), old(self).at(), old(self).limit()) is None && e.kind()
                == ErrorCode::Malformed && e.words() == header_fault(
                old(self).bytes(),
                old(self).at(),
                old(self).limit(),
            ) && final(self).at() == header_stop(
                old(self).bytes(),
                old(self).at(),
                old(self).limit(),
            ),
            final(self).moved(*old(self)),
    {
        if self.end - self.pos < 8 {
            return None;
        }
        Some(self.read_box_header())
    }

    /// Read a box header of which eight bytes are there, and move past the box.
    fn read_box_header(&mut self) -> (r: Outcome<BoxHeader>)
        requires
            old(self).wf(),
            old(self).limit() - old(self).at() >= 8,
        ensures
            r matches Ok(h) ==> box_at(old(self).bytes(), old(self).at(), old(self).limit()) == Some(h@) && final(self).at() == h@.end,
            r matches Err(e) ==> box_at(old(self).bytes(), old(self).at(), old(self).limit()) is None && e.kind()
                == ErrorCode::Malformed && e.words() == header_fault(
                old(self).bytes(),
                old(self).at(),
                old(self).limit(),
            ) && final(self).at() == header_stop(
                old(self).bytes(),
                old(self).at(),
                old(self).limit(),
            ),
            final(self).moved(*old(self)),
    {
        let ghost (f, p, e) = (self.bytes(), self.at(), self.limit());
        proof {
            self.lemma_wf();
            lemma_be(f, p);
            lemma_be(f, p + 8);
        }
        let start = self.pos;
        let size = self.u32()?;
        let kind = self.fourcc()?;
        let mut header: usize = 8;
        let mut total: u64 = size as u64;
        if size == 1 {
            total = self.u64()?;
            header = 16;
            if total > usize::MAX as u64 {
                return Err(
                    Message::new("box '").then_code(&kind.0).then_text("' declares ").then_number(total).then_text(
                        " bytes, more than this platform can address",
                    ).malformed(),
                );
            }
        } else if size == 0 {
            total = (self.end - start) as u64;
        }
        if kind.is(&UUID) {
            self.skip(16)?;
            header = header + 16;
        }
        if total < header as u64 {
            return Err(
                Message::new("box '").then_code(&kind.0).then_text("' declares ").then_number(total).then_text(
                    " bytes, less than its own ",
                ).then_number(header as u64).then_text("-byte header").malformed(),
            );
        }
        let payload = total - header as u64;
        if payload > (usize::MAX - self.pos) as u64 {
            return Err(
                Message::new("box '").then_code(&kind.0).then_text("' extends past the address space").malformed(),
            );
        }
        if payload > (self.end - self.pos) as u64 {
            let excess = payload - (self.end - self.pos) as u64;
            return Err(
                Message::new("box '").then_code(&kind.0).then_text("' declares ").then_number(total).then_text(
                    " bytes at offset ",
                ).then_number(start as u64).then_text(", running ").then_number(excess).then_text(
                    " past the end of its parent",
                ).malformed(),
            );
        }
        let payload_start = self.pos;
        self.pos = self.pos + payload as usize;
        Ok(BoxHeader { kind, payload_start, payload_len: payload as usize })
    }

    /// A reader over a box's payload.
    pub fn payload(&self, header: &BoxHeader) -> (r: Reader<'a>)
        requires
            self.wf(),
        ensures
            r.wf(),
            r.bytes() == self.bytes(),
            header@.end <= self.bytes().len() ==> r.at() == header@.start && r.limit() == header@.end,
            r.limit() == min(min(header@.end, usize::MAX as int), self.bytes().len() as int),
            r.at() == min(header@.start, r.limit()),
    {
        proof {
            self.lemma_wf();
        }
        Reader::window(self.file, header.payload_start, header.end())
    }

    /// The payload of the first box of a type, from the cursor on. The cursor
    /// stops past it, or at the padding where there is none.
    pub fn find(&mut self, kind: &[u8; 4]) -> (r: Outcome<Option<Reader<'a>>>)
        requires
            old(self).wf(),
        ensures
            ({
                let found = first_of(old(self).bytes(), old(self).at(), old(self).limit(), kind@);
                &&& r is Ok <==> found is Some
                &&& r is Ok ==> (r->Ok_0 is Some <==> found->0 is Some)
                &&& r is Ok && r->Ok_0 is Some ==> ({
                    let p = r->Ok_0->0;
                    let b = found->0->0;
                    p.wf() && p.bytes() == old(self).bytes() && p.at() == b.start && p.limit() == b.end
                })
            }),
            final(self).at() == search_stop(old(self).bytes(), old(self).at(), old(self).limit(), kind@),
            r is Err ==> r->Err_0.kind() == ErrorCode::Malformed && r->Err_0.words() == search_fault(
                old(self).bytes(),
                old(self).at(),
                old(self).limit(),
                kind@,
            ),
            final(self).moved(*old(self)),
    {
        let ghost f = self.bytes();
        proof {
            self.lemma_wf();
        }
        loop
            invariant
                self.moved(*old(self)),
                f == self.bytes(),
                first_of(f, old(self).at(), self.limit(), kind@) == first_of(f, self.at(), self.limit(), kind@),
                search_stop(f, old(self).at(), self.limit(), kind@) == search_stop(f, self.at(), self.limit(), kind@),
                search_fault(f, old(self).at(), self.limit(), kind@) == search_fault(f, self.at(), self.limit(), kind@),
            decreases self.limit() - self.at(),
        {
            proof {
                self.lemma_wf();
            }
            match self.next_box() {
                None => {
                    return Ok(None);
                },
                Some(header) => {
                    let header = header?;
                    if header.kind.is(kind) {
                        return Ok(Some(self.payload(&header)));
                    }
                },
            }
        }
    }
}

} // verus!
