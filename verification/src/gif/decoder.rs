//! The decoder: the blocks of a stream, and the canvas that its frames build up.
//!
//! A frame's pixels are compressed as a unit. The decoder stops at each image and
//! hands out its compressed bytes; what they expand to is handed back and drawn.
use super::canvas::{Canvas, Pane};
use super::format::{
    chain, chain_fault, chain_stop, lemma_chain_shortens, lemma_table_size, past_chain, read_sub_blocks, size_fault, skip_fault,
    skip_sub_blocks, used_up,
    Disposal, GraphicControl, ImageDescriptor, Screen, SIGNATURE_87A, SIGNATURE_89A,
};
use super::label::{EXTENSION, GRAPHIC_CONTROL, IMAGE, TRAILER};
use super::prefix::{followed, lemma_image_suffix, lemma_suffixes, lemma_walk_suffix};
use super::quantize::entry_at;
use crate::error::{buffer_fault, rows_fault, ErrorCode, Message, Outcome, PixelsError};
use crate::text::{append_bytes, copied, hex};
use crate::pixel::Format;
use vstd::prelude::*;

verus! {

/// The longest chain of compressed bytes accepted for one frame.
pub const MAX_COMPRESSED: usize = 0x400_0000;

/// The longest extension payload that is read.
pub const MAX_EXTENSION: usize = 4096;

/// Whether bytes start with one of the two signatures.
pub open spec fn recognised(f: Seq<u8>) -> bool {
    f.len() >= 6 && (f.subrange(0, 6) == SIGNATURE_87A@ || f.subrange(0, 6) == SIGNATURE_89A@)
}

/// Whether bytes start with six others.
fn starts_with(f: &[u8], signature: &[u8; 6]) -> (r: bool)
    requires
        f@.len() >= 6,
    ensures
        r == (f@.subrange(0, 6) == signature@),
{
    let r = f[0] == signature[0] && f[1] == signature[1] && f[2] == signature[2] && f[3] == signature[3] && f[4]
        == signature[4] && f[5] == signature[5];
    proof {
        let s = f@.subrange(0, 6);
        if r {
            assert(s =~= signature@);
        } else {
            assert(s[0] == f@[0] && s[1] == f@[1] && s[2] == f@[2] && s[3] == f@[3] && s[4] == f@[4] && s[5] == f@[5]);
        }
    }
    r
}

/// Whether `prefix` starts with a signature.
pub fn probe(prefix: &[u8]) -> (r: bool)
    ensures
        r == recognised(prefix@),
{
    prefix.len() >= 6 && (starts_with(prefix, &SIGNATURE_87A) || starts_with(prefix, &SIGNATURE_89A))
}

/// What a registry of formats asks of GIF.
#[derive(Debug, Clone, Copy)]
pub struct GifCodec;

impl GifCodec {
    /// The format.
    pub fn format(&self) -> (r: Format)
        ensures
            r == Format::Gif,
    {
        Format::Gif
    }

    /// The bytes that tell the format: a signature's.
    pub fn magic_len(&self) -> (r: usize)
        ensures
            r == 6,
    {
        6
    }

    /// Whether a file that starts with `prefix` is of the format.
    pub fn probe(&self, prefix: &[u8]) -> (r: bool)
        ensures
            r == recognised(prefix@),
    {
        probe(prefix)
    }
}

/// The logical screen of a stream, and what is behind its header. None where the
/// header is short, has another signature, or a canvas of no pixels.
pub open spec fn header(f: Seq<u8>) -> Option<(Screen, Seq<u8>)> {
    let screen = Screen::of(f.subrange(6, 13));
    if f.len() < 13 || !recognised(f) || screen.width == 0 || screen.height == 0 {
        None
    } else {
        Some((screen, f.skip(13)))
    }
}

/// The words of bytes that start with no header.
pub open spec fn header_fault(f: Seq<u8>) -> Seq<char> {
    let screen = Screen::of(f.subrange(6, 13));
    if f.len() < 13 {
        "the stream ends inside its header"@
    } else if !recognised(f) {
        "signature is neither GIF87a nor GIF89a"@
    } else {
        size_fault("logical screen is "@, screen.width as int, screen.height as int)
    }
}

/// The words of a stream that ends inside a colour table.
pub open spec fn table_fault() -> Seq<char> {
    "the stream ends inside a colour table"@
}

/// Read the header of a stream and move past it.
pub fn read_header(source: &mut &[u8]) -> (r: Outcome<Screen>)
    ensures
        ({
            let m = header(old(source)@);
            &&& r is Ok <==> m is Some
            &&& r is Ok ==> r->Ok_0 == (m->0).0 && final(source)@ == (m->0).1
        }),
        r is Err ==> r->Err_0.kind() == ErrorCode::Malformed && final(source)@ == old(source)@,
        r is Err ==> r->Err_0.words() == header_fault(old(source)@),
{
    let bytes: &[u8] = *source;
    if bytes.len() < 13 {
        return Err(PixelsError::malformed("the stream ends inside its header"));
    }
    if !probe(bytes) {
        return Err(PixelsError::malformed("signature is neither GIF87a nor GIF89a"));
    }
    let fields = [bytes[6], bytes[7], bytes[8], bytes[9], bytes[10], bytes[11], bytes[12]];
    assert(fields@ =~= bytes@.subrange(6, 13));
    let screen = Screen::parse(&fields)?;
    *source = vstd::slice::slice_subrange(bytes, 13, bytes.len());
    assert(source@ =~= bytes@.skip(13));
    Ok(screen)
}

/// A colour table of three bytes an entry.
pub open spec fn table_at(s: Seq<u8>, entries: int) -> Seq<[u8; 3]> {
    Seq::new(entries as nat, |i: int| entry_at(s, i))
}

/// Read a colour table and move past it. A stream that ends inside of it is
/// malformed.
pub fn read_table(source: &mut &[u8], entries: usize) -> (r: Outcome<Vec<[u8; 3]>>)
    requires
        entries <= 256,
    ensures
        r is Ok <==> 3 * entries <= old(source)@.len(),
        r is Ok ==> r->Ok_0@ == table_at(old(source)@, entries as int) && final(source)@ == old(source)@.skip(
            3 * entries,
        ),
        r is Err ==> r->Err_0.kind() == ErrorCode::Malformed && final(source)@ == Seq::<u8>::empty(),
        r is Err ==> r->Err_0.words() == table_fault(),
{
    let bytes: &[u8] = *source;
    if bytes.len() < 3 * entries {
        *source = used_up(bytes);
        return Err(PixelsError::malformed("the stream ends inside a colour table"));
    }
    let mut table: Vec<[u8; 3]> = Vec::new();
    let mut i: usize = 0;
    while i < entries
        invariant
            i <= entries,
            entries <= 256,
            3 * entries <= bytes@.len(),
            table@ == table_at(bytes@, i as int),
        decreases entries - i,
    {
        table.push([bytes[3 * i], bytes[3 * i + 1], bytes[3 * i + 2]]);
        assert(table@ =~= table_at(bytes@, i + 1));
        i = i + 1;
    }
    *source = vstd::slice::slice_subrange(bytes, 3 * entries, bytes.len());
    assert(source@ =~= bytes@.skip(3 * entries));
    Ok(table)
}

/// What a walk over blocks ends at.
pub enum Found {
    /// The end of the stream, and what is behind it.
    End(Seq<u8>),
    /// An image, with the control that precedes it, and what is behind its label.
    Image(GraphicControl, Seq<u8>),
}

/// Walk over extensions up to an image or the end of the stream. None where the
/// stream ends before, or a block has an unknown label.
pub open spec fn walk(s: Seq<u8>, control: GraphicControl) -> Option<Found>
    decreases s.len(),
{
    if s.len() == 0 {
        None
    } else if s[0] == TRAILER {
        Some(Found::End(s.skip(1)))
    } else if s[0] == IMAGE {
        Some(Found::Image(control, s.skip(1)))
    } else if s[0] != EXTENSION || s.len() < 2 {
        None
    } else if s[1] == GRAPHIC_CONTROL {
        match chain(s.skip(2), MAX_EXTENSION as int) {
            Some((payload, rest)) => {
                proof {
                    lemma_chain_shortens(s.skip(2), MAX_EXTENSION as int);
                }
                walk(rest, GraphicControl::of(payload))
            },
            None => None,
        }
    } else {
        match past_chain(s.skip(2)) {
            Some(rest) => {
                proof {
                    lemma_chain_shortens(s.skip(2), 0);
                }
                walk(rest, control)
            },
            None => None,
        }
    }
}

/// Where a stream stands that a walk over its blocks failed in: behind the label that
/// is unknown, in the control that is too long, or used up.
pub open spec fn walk_stop(s: Seq<u8>) -> Seq<u8>
    decreases s.len(),
{
    if s.len() == 0 || s[0] == TRAILER || s[0] == IMAGE {
        s
    } else if s[0] != EXTENSION {
        s.skip(1)
    } else if s.len() < 2 {
        Seq::empty()
    } else if s[1] == GRAPHIC_CONTROL {
        match chain(s.skip(2), MAX_EXTENSION as int) {
            Some((_, rest)) => {
                proof {
                    lemma_chain_shortens(s.skip(2), MAX_EXTENSION as int);
                }
                walk_stop(rest)
            },
            None => chain_stop(s.skip(2), MAX_EXTENSION as int),
        }
    } else {
        match past_chain(s.skip(2)) {
            Some(rest) => {
                proof {
                    lemma_chain_shortens(s.skip(2), 0);
                }
                walk_stop(rest)
            },
            None => Seq::empty(),
        }
    }
}

/// The words of blocks that lead to no image and to no end of the stream.
pub open spec fn walk_fault(s: Seq<u8>) -> Seq<char>
    decreases s.len(),
{
    if s.len() == 0 || s[0] == TRAILER || s[0] == IMAGE {
        "the stream ends before its trailer"@
    } else if s[0] != EXTENSION {
        "unknown block label 0x"@ + hex(s[0])
    } else if s.len() < 2 {
        "the stream ends inside an extension"@
    } else if s[1] == GRAPHIC_CONTROL {
        match chain(s.skip(2), MAX_EXTENSION as int) {
            Some((_, rest)) => {
                proof {
                    lemma_chain_shortens(s.skip(2), MAX_EXTENSION as int);
                }
                walk_fault(rest)
            },
            None => chain_fault(s.skip(2), MAX_EXTENSION as int, MAX_EXTENSION as int),
        }
    } else {
        match past_chain(s.skip(2)) {
            Some(rest) => {
                proof {
                    lemma_chain_shortens(s.skip(2), 0);
                }
                walk_fault(rest)
            },
            None => skip_fault(s.skip(2)),
        }
    }
}

/// A frame's compressed pixels, with what is needed to draw them.
#[derive(Debug)]
pub struct Coded {
    /// Where the frame sits on the canvas.
    pub image: ImageDescriptor,
    /// The control that precedes it.
    pub control: GraphicControl,
    /// Its colours.
    pub palette: Vec<[u8; 3]>,
    /// The least width of a code, in bits.
    pub minimum_width: u8,
    /// Its compressed pixels.
    pub compressed: Vec<u8>,
}

/// What a frame's compressed pixels come with.
#[verifier::ext_equal]
pub struct CodedAt {
    /// Where the frame sits on the canvas.
    pub image: ImageDescriptor,
    /// The control that precedes it.
    pub control: GraphicControl,
    /// Its colours.
    pub palette: Seq<[u8; 3]>,
    /// The least width of a code, in bits.
    pub minimum_width: u8,
    /// Its compressed pixels.
    pub compressed: Seq<u8>,
}

impl View for Coded {
    type V = CodedAt;

    open spec fn view(&self) -> CodedAt {
        CodedAt {
            image: self.image,
            control: self.control,
            palette: self.palette@,
            minimum_width: self.minimum_width,
            compressed: self.compressed@,
        }
    }
}

impl Coded {
    /// How many pixels the frame has.
    pub fn pixels(&self) -> (r: u64)
        ensures
            r == self.image.width * self.image.height,
    {
        proof {
            let (w, h) = (self.image.width as int, self.image.height as int);
            assert(0 <= w * h <= 65535 * 65535) by (nonlinear_arith)
                requires
                    0 <= w <= 65535,
                    0 <= h <= 65535,
            ;
        }
        self.image.width as u64 * self.image.height as u64
    }
}

/// The image whose descriptor is at the start of some bytes, and what is behind it.
/// Its colours are its own, or those of the stream where it has none. None where
/// the bytes end inside of it, it has no pixels or no colours, or its compressed
/// bytes are too many.
pub open spec fn image_at(s: Seq<u8>, global: Seq<[u8; 3]>, control: GraphicControl) -> Option<(CodedAt, Seq<u8>)> {
    let image = ImageDescriptor::of(s.subrange(0, 9));
    let own = 3 * (image.local_table_size as int);
    let palette = if image.local_table_size > 0 {
        table_at(s.skip(9), image.local_table_size as int)
    } else {
        global
    };
    if s.len() < 9 || image.width == 0 || image.height == 0 || s.len() < 9 + own + 1 || palette.len() == 0 {
        None
    } else {
        match chain(s.skip(10 + own), MAX_COMPRESSED as int) {
            None => None,
            Some((compressed, rest)) => Some(
                (CodedAt { image, control, palette, minimum_width: s[9 + own], compressed }, rest),
            ),
        }
    }
}

/// Where a stream stands that no image could be read from: behind the descriptor of
/// an image without pixels or colours, in compressed bytes that are too many, or
/// used up.
pub open spec fn image_stop(s: Seq<u8>, global: Seq<[u8; 3]>) -> Seq<u8> {
    let image = ImageDescriptor::of(s.subrange(0, 9));
    let own = 3 * (image.local_table_size as int);
    if s.len() < 9 {
        Seq::empty()
    } else if image.width == 0 || image.height == 0 {
        s.skip(9)
    } else if s.len() < 9 + own {
        Seq::empty()
    } else if own == 0 && global.len() == 0 {
        s.skip(9)
    } else if s.len() < 10 + own {
        Seq::empty()
    } else {
        chain_stop(s.skip(10 + own), MAX_COMPRESSED as int)
    }
}

/// The words of bytes behind the label of an image that are none.
pub open spec fn image_fault(s: Seq<u8>, global: Seq<[u8; 3]>) -> Seq<char> {
    let image = ImageDescriptor::of(s.subrange(0, 9));
    let own = 3 * (image.local_table_size as int);
    if s.len() < 9 {
        "the stream ends inside an image descriptor"@
    } else if image.width == 0 || image.height == 0 {
        size_fault("frame is "@, image.width as int, image.height as int)
    } else if s.len() < 9 + own {
        table_fault()
    } else if own == 0 && global.len() == 0 {
        "frame has neither a local nor a global colour table"@
    } else if s.len() < 10 + own {
        "the stream ends inside an image"@
    } else {
        chain_fault(s.skip(10 + own), MAX_COMPRESSED as int, MAX_COMPRESSED as int)
    }
}

/// Read an image behind its label and move past it.
fn read_image(source: &mut &[u8], global: &Vec<[u8; 3]>, control: GraphicControl) -> (r: Outcome<Coded>)
    ensures
        ({
            let m = image_at(old(source)@, global@, control);
            &&& r is Ok <==> m is Some
            &&& r is Ok ==> r->Ok_0@ == (m->0).0 && final(source)@ == (m->0).1
        }),
        r is Err ==> final(source)@ == image_stop(old(source)@, global@),
        r is Err ==> r->Err_0.kind() == ErrorCode::Malformed,
        r is Err ==> r->Err_0.words() == image_fault(old(source)@, global@),
{
    let bytes: &[u8] = *source;
    if bytes.len() < 9 {
        *source = used_up(bytes);
        return Err(PixelsError::malformed("the stream ends inside an image descriptor"));
    }
    let fields = [bytes[0], bytes[1], bytes[2], bytes[3], bytes[4], bytes[5], bytes[6], bytes[7], bytes[8]];
    assert(fields@ =~= bytes@.subrange(0, 9));
    *source = vstd::slice::slice_subrange(bytes, 9, bytes.len());
    assert(source@ =~= bytes@.skip(9));
    let image = ImageDescriptor::parse(&fields)?;
    proof {
        lemma_table_size(bytes@[8]);
    }
    let local = read_table(source, image.local_table_size)?;
    let ghost own = 3 * (image.local_table_size as int);
    let palette = if image.local_table_size > 0 {
        local
    } else {
        copy_table(global)
    };
    if palette.len() == 0 {
        return Err(PixelsError::malformed("frame has neither a local nor a global colour table"));
    }
    let rest: &[u8] = *source;
    assert(rest@ =~= bytes@.skip(9 + own));
    if rest.len() == 0 {
        return Err(PixelsError::malformed("the stream ends inside an image"));
    }
    let minimum_width = rest[0];
    *source = vstd::slice::slice_subrange(rest, 1, rest.len());
    assert(source@ =~= bytes@.skip(10 + own));
    let compressed = read_sub_blocks(source, MAX_COMPRESSED)?;
    Ok(Coded { image, control, palette, minimum_width, compressed })
}

/// Copy a colour table.
fn copy_table(table: &Vec<[u8; 3]>) -> (r: Vec<[u8; 3]>)
    ensures
        r@ == table@,
{
    let mut out: Vec<[u8; 3]> = Vec::new();
    let mut i: usize = 0;
    while i < table.len()
        invariant
            i <= table@.len(),
            out@ == table@.take(i as int),
        decreases table@.len() - i,
    {
        out.push(table[i]);
        assert(table@.take(i + 1) =~= table@.take(i as int).push(table@[i as int]));
        i = i + 1;
    }
    assert(table@.take(table@.len() as int) =~= table@);
    out
}

/// What a walk over blocks ends at.
enum Stop {
    /// The end of the stream.
    End,
    /// An image, with the control that precedes it.
    Image(GraphicControl),
}

/// Walk over extensions up to an image or the end of the stream.
fn walk_blocks(source: &mut &[u8]) -> (r: Outcome<Stop>)
    ensures
        ({
            let m = walk(old(source)@, GraphicControl::absent());
            &&& r is Ok <==> m is Some
            &&& r is Ok ==> (match r->Ok_0 {
                Stop::End => m->0 == Found::End(final(source)@),
                Stop::Image(control) => m->0 == Found::Image(control, final(source)@),
            })
        }),
        r is Err ==> final(source)@ == walk_stop(old(source)@),
        r is Err ==> r->Err_0.kind() == ErrorCode::Malformed,
        r is Err ==> r->Err_0.words() == walk_fault(old(source)@),
{
    let ghost all = source@;
    let mut control = GraphicControl::default();
    let mut rest: &[u8] = *source;
    loop
        invariant
            all == old(source)@,
            walk(all, GraphicControl::absent()) == walk(rest@, control),
            walk_stop(all) == walk_stop(rest@),
            walk_fault(all) == walk_fault(rest@),
        decreases rest@.len(),
    {
        let ghost was = rest@;
        if rest.len() == 0 {
            *source = rest;
            return Err(PixelsError::malformed("the stream ends before its trailer"));
        }
        let marker = rest[0];
        if marker == TRAILER || marker == IMAGE {
            *source = vstd::slice::slice_subrange(rest, 1, rest.len());
            assert(source@ =~= was.skip(1));
            return Ok(
                if marker == TRAILER {
                    Stop::End
                } else {
                    Stop::Image(control)
                },
            );
        }
        if marker != EXTENSION {
            *source = vstd::slice::slice_subrange(rest, 1, rest.len());
            assert(source@ =~= was.skip(1));
            return Err(Message::new("unknown block label 0x").then_hex(marker).malformed());
        }
        if rest.len() < 2 {
            *source = used_up(rest);
            return Err(PixelsError::malformed("the stream ends inside an extension"));
        }
        let kind = rest[1];
        rest = vstd::slice::slice_subrange(rest, 2, rest.len());
        proof {
            assert(rest@ =~= was.skip(2));
            lemma_chain_shortens(rest@, MAX_EXTENSION as int);
        }
        if kind == GRAPHIC_CONTROL {
            match read_sub_blocks(&mut rest, MAX_EXTENSION) {
                Ok(payload) => {
                    control = GraphicControl::parse(payload.as_slice());
                },
                Err(e) => {
                    *source = rest;
                    return Err(e);
                },
            }
        } else if let Err(e) = skip_sub_blocks(&mut rest) {
            *source = rest;
            return Err(e);
        }
    }
}

/// What the frame just drawn asked to happen before the next one.
#[derive(Debug)]
struct Pending {
    disposal: Disposal,
    area: ImageDescriptor,
    /// The rectangle as it was before the frame was drawn.
    saved: Vec<u8>,
    /// Whether that frame has a transparent index.
    had_transparency: bool,
}

/// What the frame just drawn asked to happen before the next one.
#[verifier::ext_equal]
pub struct PendingAt {
    /// What happens to its rectangle.
    pub disposal: Disposal,
    /// Its rectangle.
    pub area: ImageDescriptor,
    /// The rectangle as it was before the frame was drawn, where it is put back.
    pub saved: Seq<u8>,
    /// Whether that frame has a transparent index.
    pub had_transparency: bool,
}

/// What a decoder knows.
#[verifier::ext_equal]
pub struct Reel {
    /// The logical screen.
    pub screen: Screen,
    /// The colours of the stream.
    pub global: Seq<[u8; 3]>,
    /// The pixel that a rectangle is restored to.
    pub background: Seq<u8>,
    /// The canvas.
    pub canvas: Pane,
    /// What happens before the next frame.
    pub pending: Option<PendingAt>,
    /// What is still to be read.
    pub rest: Seq<u8>,
    /// Whether a frame has been drawn.
    pub started: bool,
    /// Whether the end of the stream has been read.
    pub finished: bool,
    /// Rows of the first frame that have been handed out.
    pub row: int,
}

/// The pixel that rectangles are restored to: an entry of the stream's colours,
/// opaque, and transparent where there is no such entry.
pub open spec fn background_of(global: Seq<[u8; 3]>, index: u8) -> Seq<u8> {
    if index < global.len() {
        seq![global[index as int]@[0], global[index as int]@[1], global[index as int]@[2], 255u8]
    } else {
        seq![0u8, 0u8, 0u8, 0u8]
    }
}

/// A decoder at the start of a stream: a transparent canvas, and nothing drawn.
/// None where the header is not one, the canvas is too large for memory, or the
/// stream ends inside its colours.
pub open spec fn opened(f: Seq<u8>) -> Option<Reel> {
    match header(f) {
        None => None,
        Some((screen, rest)) => {
            let n = screen.global_table_size as int;
            let bytes = 4 * (screen.width * screen.height);
            if rest.len() < 3 * n || bytes > isize::MAX {
                None
            } else {
                Some(
                    Reel {
                        screen,
                        global: table_at(rest, n),
                        background: background_of(table_at(rest, n), screen.background),
                        canvas: Pane {
                            width: screen.width as int,
                            height: screen.height as int,
                            data: Seq::new(bytes as nat, |k: int| 0u8),
                        },
                        pending: None,
                        rest: rest.skip(3 * n),
                        started: false,
                        finished: false,
                        row: 0,
                    },
                )
            }
        },
    }
}

/// The words of bytes that no decoder can be at the start of.
pub open spec fn opened_fault(f: Seq<u8>) -> Seq<char> {
    match header(f) {
        None => header_fault(f),
        Some((screen, rest)) => if rest.len() < 3 * screen.global_table_size {
            table_fault()
        } else {
            "canvas size overflows"@
        },
    }
}

impl Reel {
    /// The canvas after the frame just drawn is disposed of. A rectangle is
    /// restored to transparent where its frame has a transparent index, else to
    /// the background.
    pub open spec fn disposed(self) -> Pane {
        match self.pending {
            None => self.canvas,
            Some(p) => match p.disposal {
                Disposal::Unspecified => self.canvas,
                Disposal::Keep => self.canvas,
                Disposal::Background => self.canvas.filled(
                    p.area,
                    if p.had_transparency {
                        seq![0u8, 0u8, 0u8, 0u8]
                    } else {
                        self.background
                    },
                ),
                Disposal::Previous => self.canvas.restored(p.area, p.saved),
            },
        }
    }

    /// A decoder with the frame just drawn disposed of.
    pub open spec fn cleared(self) -> Reel {
        Reel { canvas: self.disposed(), pending: None, ..self }
    }

    /// The next image of the stream and the decoder behind it, with the frame just
    /// drawn disposed of; no image at the end of the stream.
    pub open spec fn advanced(self) -> Option<(Option<CodedAt>, Reel)> {
        if self.finished {
            Some((None, self))
        } else {
            match walk(self.rest, GraphicControl::absent()) {
                None => None,
                Some(Found::End(rest)) => Some((None, Reel { finished: true, rest, ..self.cleared() })),
                Some(Found::Image(control, from)) => match image_at(from, self.global, control) {
                    None => None,
                    Some((coded, rest)) => Some((Some(coded), Reel { rest, ..self.cleared() })),
                },
            }
        }
    }

    /// A decoder whose next image could not be read: the frame just drawn is disposed
    /// of, and the stream stands where it failed.
    pub open spec fn failed(self) -> Reel {
        Reel {
            rest: match walk(self.rest, GraphicControl::absent()) {
                Some(Found::Image(_, from)) => image_stop(from, self.global),
                _ => walk_stop(self.rest),
            },
            ..self.cleared()
        }
    }

    /// The words of a decoder whose next image could not be read.
    pub open spec fn fault(self) -> Seq<char> {
        match walk(self.rest, GraphicControl::absent()) {
            Some(Found::Image(_, from)) => image_fault(from, self.global),
            _ => walk_fault(self.rest),
        }
    }

    /// Whether the stream ends before the next image, or before it is known to have
    /// none: more bytes may bring it.
    pub open spec fn wanting(self) -> bool {
        self.advanced() is None && self.failed().rest.len() == 0
    }

    /// A decoder with a frame drawn.
    pub open spec fn with_frame(self, coded: CodedAt, indices: Seq<u8>) -> Reel {
        Reel {
            canvas: self.canvas.drawn(coded.image, indices, coded.palette, coded.control.transparent),
            pending: Some(
                PendingAt {
                    disposal: coded.control.disposal,
                    area: coded.image,
                    saved: if coded.control.disposal is Previous {
                        self.canvas.saved(coded.image)
                    } else {
                        Seq::empty()
                    },
                    had_transparency: coded.control.transparent is Some,
                },
            ),
            started: true,
            ..self
        }
    }

    /// Where the next row to be handed out starts.
    pub open spec fn row_start(self) -> int {
        self.row * (4 * self.canvas.width)
    }

    /// The next row to be handed out.
    pub open spec fn next_row(self) -> Seq<u8> {
        self.canvas.data.subrange(self.row_start(), self.row_start() + 4 * self.canvas.width)
    }
}

/// One decoded frame.
#[derive(Debug, Clone)]
pub struct Frame {
    /// The whole canvas after the frame is drawn, four bytes a pixel.
    pub pixels: Vec<u8>,
    /// Canvas width.
    pub width: u32,
    /// Canvas height.
    pub height: u32,
    /// Delay before the next frame, in hundredths of a second.
    pub delay_centiseconds: u16,
    /// How the frame is disposed of before the next is drawn.
    pub disposal: Disposal,
}

/// Decodes a stream.
#[derive(Debug)]
pub struct GifDecoder {
    screen: Screen,
    /// Bytes of the stream.
    source: Vec<u8>,
    /// How many of them have been read.
    at: usize,
    /// The colours of the stream.
    global: Vec<[u8; 3]>,
    /// The canvas, which outlives each frame.
    canvas: Canvas,
    /// Whether a frame has been drawn.
    started: bool,
    /// Rows of the first frame that have been handed out.
    row: u32,
    /// Whether the end of the stream has been read.
    finished: bool,
    /// What the frame just drawn asked for.
    pending: Option<Pending>,
    /// The pixel that rectangles are restored to.
    background: [u8; 4],
}

/// What a pending disposal asks for.
spec fn pending_at(pending: Option<Pending>) -> Option<PendingAt> {
    match pending {
        None => None,
        Some(p) => Some(
            PendingAt {
                disposal: p.disposal,
                area: p.area,
                saved: p.saved@,
                had_transparency: p.had_transparency,
            },
        ),
    }
}

impl View for GifDecoder {
    type V = Reel;

    closed spec fn view(&self) -> Reel {
        Reel {
            screen: self.screen,
            global: self.global@,
            background: self.background@,
            canvas: self.canvas@,
            pending: pending_at(self.pending),
            rest: self.source@.skip(self.at as int),
            started: self.started,
            finished: self.finished,
            row: self.row as int,
        }
    }
}

impl GifDecoder {
    /// Whether the canvas is that of the screen, and no more is read than is there.
    pub closed spec fn wf(&self) -> bool {
        &&& self.at <= self.source@.len()
        &&& self.canvas@.wf()
        &&& self.canvas.width == self.screen.width
        &&& self.canvas.height == self.screen.height
        &&& self.row <= self.canvas.height
    }

    /// The canvas has four bytes for each pixel of the screen.
    pub proof fn lemma_wf(&self)
        requires
            self.wf(),
        ensures
            self@.canvas.wf(),
            self@.canvas.width == self@.screen.width,
            self@.canvas.height == self@.screen.height,
            0 <= self@.row <= self@.canvas.height,
    {
    }

    /// Read the header of a stream and its colours, and nothing more.
    pub fn new(bytes: &[u8]) -> (r: Outcome<GifDecoder>)
        ensures
            r is Ok <==> opened(bytes@) is Some,
            r is Ok ==> r->Ok_0@ == opened(bytes@)->0 && r->Ok_0.wf(),
            r is Err ==> r->Err_0.kind() == ErrorCode::Malformed,
            r is Err ==> r->Err_0.words() == opened_fault(bytes@),
    {
        let mut source: &[u8] = bytes;
        let screen = read_header(&mut source)?;
        let ghost fields = bytes@.subrange(6, 13);
        proof {
            lemma_table_size(fields[4]);
        }
        let global = read_table(&mut source, screen.global_table_size)?;
        proof {
            let (w, h) = (screen.width as int, screen.height as int);
            assert(0 <= w * h <= 65535 * 65535) by (nonlinear_arith)
                requires
                    0 <= w <= 65535,
                    0 <= h <= 65535,
            ;
        }
        let size: u64 = 4 * (screen.width as u64 * screen.height as u64);
        if size > isize::MAX as u64 {
            return Err(PixelsError::malformed("canvas size overflows"));
        }
        let at = screen.background as usize;
        let background = if at < global.len() {
            let c = global[at];
            [c[0], c[1], c[2], 255]
        } else {
            [0, 0, 0, 0]
        };
        assert(background@ =~= background_of(global@, screen.background));
        let data: Vec<u8> = vec![0; size as usize];
        let decoder = GifDecoder {
            screen,
            source: copied(source),
            at: 0,
            global,
            canvas: Canvas { width: screen.width as u32, height: screen.height as u32, data },
            started: false,
            row: 0,
            finished: false,
            pending: None,
            background,
        };
        assert(decoder@ =~= opened(bytes@)->0) by {
            assert(data@ =~= opened(bytes@)->0.canvas.data);
            assert(source@.skip(0) =~= source@);
        }
        Ok(decoder)
    }

    /// The logical screen.
    pub fn screen(&self) -> (r: Screen)
        ensures
            r == self@.screen,
    {
        self.screen
    }

    /// Whether a frame has been drawn.
    pub fn is_started(&self) -> (r: bool)
        ensures
            r == self@.started,
    {
        self.started
    }

    /// Undo the frame just drawn according to its disposal.
    fn apply_disposal(&mut self)
        requires
            old(self).wf(),
        ensures
            final(self)@ == old(self)@.cleared(),
            final(self).wf(),
    {
        let taken = self.pending.take();
        if let Some(pending) = taken {
            match pending.disposal {
                Disposal::Unspecified => {},
                Disposal::Keep => {},
                Disposal::Background => {
                    let fill = if pending.had_transparency {
                        [0, 0, 0, 0]
                    } else {
                        self.background
                    };
                    assert(pending.had_transparency ==> fill@ =~= seq![0u8, 0u8, 0u8, 0u8]);
                    self.canvas.fill_area(&pending.area, &fill);
                },
                Disposal::Previous => {
                    self.canvas.restore_area(&pending.area, pending.saved.as_slice());
                },
            }
        }
        assert(self@ =~= old(self)@.cleared());
    }

    /// Find the next image, after the frame just drawn is disposed of. None once
    /// the end of the stream is reached. A block that is not one, or an image that
    /// cannot be drawn, is malformed, and the stream then stands where it failed.
    pub fn next_image(&mut self) -> (r: Outcome<Option<Coded>>)
        requires
            old(self).wf(),
        ensures
            ({
                let m = old(self)@.advanced();
                &&& r is Ok <==> m is Some
                &&& r is Ok ==> ({
                    &&& final(self)@ == (m->0).1
                    &&& match r->Ok_0 {
                        Some(coded) => (m->0).0 == Some(coded@),
                        None => (m->0).0 is None,
                    }
                })
                &&& r is Err ==> final(self)@ == old(self)@.failed()
            }),
            r is Err ==> r->Err_0.kind() == ErrorCode::Malformed,
            r is Err ==> r->Err_0.words() == old(self)@.fault(),
            final(self).wf(),
    {
        if self.finished {
            return Ok(None);
        }
        let ghost was = self@;
        let (found, left) = self.look();
        self.at = self.source.len() - left;
        if let Ok(None) = found {
            self.finished = true;
        }
        let ghost moved = self@;
        assert(moved =~= (Reel { finished: moved.finished, rest: moved.rest, ..was }));
        self.apply_disposal();
        assert(self@ =~= (Reel { finished: moved.finished, rest: moved.rest, ..was.cleared() }));
        found
    }

    /// Find the next image, and how many bytes are left behind it, or behind what is
    /// not one.
    fn look(&self) -> (r: (Outcome<Option<Coded>>, usize))
        requires
            self.wf(),
            !self@.finished,
        ensures
            ({
                let m = self@.advanced();
                let rest = if m is Some {
                    (m->0).1.rest
                } else {
                    self@.failed().rest
                };
                &&& r.0 is Ok <==> m is Some
                &&& r.0 is Ok ==> match r.0->Ok_0 {
                    Some(coded) => (m->0).0 == Some(coded@),
                    None => (m->0).0 is None,
                }
                &&& r.1 == rest.len() <= self@.rest.len()
                &&& rest == self.source@.skip(self.source@.len() - r.1)
            }),
            r.0 is Err ==> r.0->Err_0.kind() == ErrorCode::Malformed && r.0->Err_0.words() == self@.fault(),
    {
        let ghost all = self@.rest;
        let mut source: &[u8] = vstd::slice::slice_subrange(self.source.as_slice(), self.at, self.source.len());
        proof {
            assert(source@ =~= all);
            lemma_walk_suffix(all, GraphicControl::absent());
        }
        match walk_blocks(&mut source) {
            Err(e) => {
                proof {
                    lemma_suffixes(self.source@, all, source@);
                }
                (Err(e), source.len())
            },
            Ok(Stop::End) => {
                proof {
                    lemma_suffixes(self.source@, all, source@);
                }
                (Ok(None), source.len())
            },
            Ok(Stop::Image(control)) => {
                let ghost from = source@;
                let r = read_image(&mut source, &self.global, control);
                proof {
                    lemma_image_suffix(from, self.global@, control);
                    lemma_suffixes(all, from, source@);
                    lemma_suffixes(self.source@, all, source@);
                }
                match r {
                    Ok(coded) => (Ok(Some(coded)), source.len()),
                    Err(e) => (Err(e), source.len()),
                }
            },
        }
    }

    /// Whether the stream ends before the next image, or before it is known to have
    /// none.
    pub fn wants_more(&self) -> (r: bool)
        requires
            self.wf(),
        ensures
            r == self@.wanting(),
    {
        if self.finished {
            return false;
        }
        let (found, left) = self.look();
        found.is_err() && left == 0
    }

    /// Add bytes at the end of the stream.
    pub fn feed(&mut self, more: &[u8])
        requires
            old(self).wf(),
        ensures
            final(self)@ == followed(old(self)@, more@),
            final(self).wf(),
    {
        let ghost was = self@;
        let mut source = copied(vstd::slice::slice_subrange(self.source.as_slice(), self.at, self.source.len()));
        append_bytes(&mut source, more);
        self.source = source;
        self.at = 0;
        proof {
            assert(self.source@.skip(0) =~= was.rest + more@);
            assert(self@ =~= followed(was, more@));
        }
    }

    /// The image that has to be drawn before rows can be handed out: none where a
    /// frame has been drawn already. A stream without a frame is malformed.
    pub fn first_image(&mut self) -> (r: Outcome<Option<Coded>>)
        requires
            old(self).wf(),
        ensures
            ({
                let m = old(self)@.advanced();
                &&& old(self)@.started ==> r is Ok && r->Ok_0 is None && final(self)@ == old(self)@
                &&& !old(self)@.started ==> (r is Ok <==> m is Some && (m->0).0 is Some)
                &&& !old(self)@.started && r is Ok ==> r->Ok_0 is Some && (m->0).0 == Some(r->Ok_0->0@)
                &&& !old(self)@.started && m is Some ==> final(self)@ == (m->0).1
                &&& !old(self)@.started && m is None ==> final(self)@ == old(self)@.failed()
                &&& r is Err ==> r->Err_0.words() == if m is None {
                    old(self)@.fault()
                } else {
                    "stream contains no frames"@
                }
            }),
            r is Err ==> r->Err_0.kind() == ErrorCode::Malformed,
            final(self).wf(),
    {
        if self.started {
            return Ok(None);
        }
        match self.next_image()? {
            Some(coded) => Ok(Some(coded)),
            None => Err(PixelsError::malformed("stream contains no frames")),
        }
    }

    /// Draw a frame from its indices.
    pub fn draw(&mut self, coded: &Coded, indices: &[u8]) -> (r: Frame)
        requires
            old(self).wf(),
            4 * (coded.image.width * coded.image.height) <= isize::MAX,
        ensures
            final(self)@ == old(self)@.with_frame(coded@, indices@),
            final(self).wf(),
            r.pixels@ == final(self)@.canvas.data,
            r.width == old(self)@.screen.width,
            r.height == old(self)@.screen.height,
            r.delay_centiseconds == coded.control.delay_centiseconds,
            r.disposal == coded.control.disposal,
    {
        let saved = match coded.control.disposal {
            Disposal::Previous => self.canvas.save_area(&coded.image),
            _ => Vec::new(),
        };
        self.canvas.composite(&coded.image, indices, coded.palette.as_slice(), coded.control.transparent);
        self.pending = Some(
            Pending {
                disposal: coded.control.disposal,
                area: coded.image,
                saved,
                had_transparency: coded.control.transparent.is_some(),
            },
        );
        self.started = true;
        assert(self@ =~= old(self)@.with_frame(coded@, indices@)) by {
            assert(self@.pending =~= old(self)@.with_frame(coded@, indices@).pending);
        }
        Frame {
            pixels: copied(self.canvas.data.as_slice()),
            width: self.canvas.width,
            height: self.canvas.height,
            delay_centiseconds: coded.control.delay_centiseconds,
            disposal: coded.control.disposal,
        }
    }

    /// Hand out the next row of the canvas. A row behind the last, or a buffer that
    /// is not as long as a row, is an invalid argument.
    pub fn read_row(&mut self, out: &mut [u8]) -> (r: Outcome<()>)
        requires
            old(self).wf(),
            old(self)@.started,
        ensures
            final(self).wf(),
            r is Ok <==> old(self)@.row < old(self)@.canvas.height && old(out)@.len() == 4 * old(self)@.canvas.width,
            r is Ok ==> final(out)@ == old(self)@.next_row() && final(self)@ == (Reel {
                row: old(self)@.row + 1,
                ..old(self)@
            }),
            r is Err ==> r->Err_0.kind() == ErrorCode::InvalidArgument && final(self)@ == old(self)@ && final(out)@
                == old(out)@,
            r is Err ==> r->Err_0.words() == if old(self)@.row >= old(self)@.canvas.height {
                rows_fault(old(self)@.canvas.height)
            } else {
                buffer_fault(old(out)@.len() as int, 4 * old(self)@.canvas.width)
            },
    {
        if self.row >= self.canvas.height {
            return Err(
                Message::new("all ").then_number(self.canvas.height as u64).then_text(
                    " rows have already been read",
                ).invalid_argument(),
            );
        }
        let row_bytes = 4 * self.canvas.width as usize;
        if out.len() != row_bytes {
            return Err(
                Message::new("row buffer is ").then_number(out.len() as u64).then_text(" bytes, expected ").then_number(
                    row_bytes as u64,
                ).invalid_argument(),
            );
        }
        let ghost was = self@;
        proof {
            let (w, h, y) = (self.canvas.width as int, self.canvas.height as int, self.row as int);
            assert(0 <= y * (4 * w) && y * (4 * w) + 4 * w <= 4 * (w * h)) by (nonlinear_arith)
                requires
                    0 <= y < h,
                    0 <= w,
            ;
            assert(self.canvas.data@.len() == self.canvas.data.len());
        }
        let start = self.row as usize * row_bytes;
        let mut i: usize = 0;
        while i < row_bytes
            invariant
                i <= row_bytes,
                out@.len() == row_bytes,
                start + row_bytes <= self.canvas.data@.len(),
                start + row_bytes <= usize::MAX,
                forall|j: int| 0 <= j < i ==> #[trigger] out@[j] == self.canvas.data@[start + j],
            decreases row_bytes - i,
        {
            out[i] = self.canvas.data[start + i];
            i = i + 1;
        }
        assert(out@ =~= was.next_row());
        self.row = self.row + 1;
        assert(self@ =~= (Reel { row: was.row + 1, ..was }));
        Ok(())
    }
}

} // verus!
