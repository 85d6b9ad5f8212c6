//! The encoder: one frame, with palette quantization.
//!
//! A palette needs a histogram of the whole image, and dithering carries error from
//! row to row, so the image is gathered before any of it is written.
use super::format::{chained, write_sub_blocks, SIGNATURE_89A};
use super::label::{IMAGE, TRAILER};
use super::median_cut::{build_palette, codes, palette_of};
use super::quantize::{bits_for, indices_of, numbers, quantize, Dither, Palette};
use crate::error::{unsupported, ErrorCode, Fault, Message, Outcome, PixelsError};
use crate::math::{clamp, p2};
use crate::pixel::PixelFormat;
use crate::text::{append_bytes, number};
use vstd::prelude::*;

verus! {

/// What an image is encoded with.
#[derive(Debug, Clone, Copy, PartialEq, Eq)]
pub struct EncodeOptions {
    /// Quality, from 1 to 100.
    pub quality: u8,
}

/// A value over black, by its alpha.
pub open spec fn blended(value: u8, alpha: u8) -> u8 {
    ((value * alpha + 127) / 255) as u8
}

/// A value over black, by its alpha.
fn blend(value: u8, alpha: u8) -> (r: u8)
    ensures
        r == blended(value, alpha),
{
    proof {
        let (v, a) = (value as int, alpha as int);
        assert(0 <= v * a <= 65025) by (nonlinear_arith)
            requires
                0 <= v <= 255,
                0 <= a <= 255,
        ;
    }
    ((value as u32 * alpha as u32 + 127) / 255) as u8
}

/// Whether the encoder takes a format.
pub open spec fn encodable(format: PixelFormat) -> bool {
    format is Rgb8 || format is Rgba8 || format is Gray8 || format is GrayA8
}

/// The words of a format that the encoder does not take.
pub open spec fn depth_fault(format: PixelFormat) -> Seq<char> {
    "GIF encoding needs an 8-bit format; got "@ + format.named() + ". Convert first."@
}

/// The words of dimensions that the encoder does not take.
pub open spec fn dimensions_fault(width: int, height: int) -> Seq<char> {
    "GIF dimensions are 16-bit; "@ + number(width) + "x"@ + number(height) + " does not fit"@
}

/// A row as three bytes a pixel. Alpha is composited against black. Bytes behind the
/// last whole pixel are dropped where there is alpha.
pub open spec fn as_rgb(row: Seq<u8>, format: PixelFormat) -> Seq<u8> {
    match format {
        PixelFormat::Rgba8 => Seq::new(
            (3 * (row.len() / 4)) as nat,
            |k: int| blended(row[4 * (k / 3) + k % 3], row[4 * (k / 3) + 3]),
        ),
        PixelFormat::Gray8 => Seq::new((3 * row.len()) as nat, |k: int| row[k / 3]),
        PixelFormat::GrayA8 => Seq::new(
            (3 * (row.len() / 2)) as nat,
            |k: int| blended(row[2 * (k / 3)], row[2 * (k / 3) + 1]),
        ),
        _ => row,
    }
}

/// Convert a row to three bytes a pixel and append it. A format of more than eight
/// bits is unsupported.
pub fn append_as_rgb(row: &[u8], format: PixelFormat, out: &mut Vec<u8>) -> (r: Outcome<()>)
    ensures
        r is Ok <==> encodable(format),
        r is Ok ==> final(out)@ == old(out)@ + as_rgb(row@, format),
        r is Err ==> r->Err_0.kind() == ErrorCode::Unsupported && final(out)@ == old(out)@,
        r is Err ==> r->Err_0.words() == depth_fault(format),
{
    let ghost before = out@;
    let ghost all = as_rgb(row@, format);
    match format {
        PixelFormat::Rgb8 => {
            append_bytes(out, row);
        },
        PixelFormat::Rgba8 => {
            let count = row.len() / 4;
            let mut i: usize = 0;
            assert(out@ =~= before + all.take(0));
            while i < count
                invariant
                    i <= count,
                    count == row@.len() / 4,
                    row@.len() == row.len(),
                    all == as_rgb(row@, PixelFormat::Rgba8),
                    out@ == before + all.take(3 * i),
                decreases count - i,
            {
                let alpha = row[4 * i + 3];
                out.push(blend(row[4 * i], alpha));
                out.push(blend(row[4 * i + 1], alpha));
                out.push(blend(row[4 * i + 2], alpha));
                proof {
                    assert(all[3 * i] == blended(row@[4 * i], alpha));
                    assert(all[3 * i + 1] == blended(row@[4 * i + 1], alpha));
                    assert(all[3 * i + 2] == blended(row@[4 * i + 2], alpha));
                    assert(out@ =~= before + all.take(3 * (i + 1)));
                }
                i = i + 1;
            }
            assert(all.take(3 * count) =~= all);
        },
        PixelFormat::Gray8 => {
            let mut i: usize = 0;
            assert(out@ =~= before + all.take(0));
            while i < row.len()
                invariant
                    i <= row@.len(),
                    all == as_rgb(row@, PixelFormat::Gray8),
                    out@ == before + all.take(3 * i),
                decreases row@.len() - i,
            {
                let value = row[i];
                out.push(value);
                out.push(value);
                out.push(value);
                proof {
                    assert(all[3 * i] == value && all[3 * i + 1] == value && all[3 * i + 2] == value);
                    assert(out@ =~= before + all.take(3 * (i + 1)));
                }
                i = i + 1;
            }
            assert(all.take(all.len() as int) =~= all);
        },
        PixelFormat::GrayA8 => {
            let count = row.len() / 2;
            let mut i: usize = 0;
            assert(out@ =~= before + all.take(0));
            while i < count
                invariant
                    i <= count,
                    count == row@.len() / 2,
                    row@.len() == row.len(),
                    all == as_rgb(row@, PixelFormat::GrayA8),
                    out@ == before + all.take(3 * i),
                decreases count - i,
            {
                let value = blend(row[2 * i], row[2 * i + 1]);
                out.push(value);
                out.push(value);
                out.push(value);
                proof {
                    assert(all[3 * i] == value && all[3 * i + 1] == value && all[3 * i + 2] == value);
                    assert(out@ =~= before + all.take(3 * (i + 1)));
                }
                i = i + 1;
            }
            assert(all.take(3 * count) =~= all);
        },
        _ => {
            return Err(
                Message::new("GIF encoding needs an 8-bit format; got ").then_text(format.name()).then_text(
                    ". Convert first.",
                ).unsupported(),
            );
        },
    }
    Ok(())
}

/// Everything fixed once the dimensions are known.
#[derive(Debug)]
pub struct State {
    /// The width.
    pub width: u32,
    /// The height.
    pub height: u32,
    /// How rows come.
    pub format: PixelFormat,
    /// The image gathered so far, three bytes a pixel.
    pub rgb: Vec<u8>,
    /// Rows gathered so far.
    pub rows_written: u32,
}

/// Encodes a single frame.
#[derive(Debug)]
pub struct GifEncoder {
    /// How colour error is handled.
    pub dither: Dither,
    /// Palette entries to aim for, from 2 to 256.
    pub colours: usize,
    /// What is gathered, once the dimensions are known.
    pub state: Option<State>,
}

impl Default for GifEncoder {
    fn default() -> (r: GifEncoder)
        ensures
            r.dither is FloydSteinberg,
            r.colours == 256,
            r.state is None,
    {
        GifEncoder::new()
    }
}

/// The bytes of a row of three bytes a pixel times a number of rows are no more than
/// those of the image.
proof fn lemma_rows_fit(width: int, rows: int, height: int)
    requires
        0 <= width <= 65535,
        0 <= rows <= height <= 65535,
    ensures
        0 <= 3 * (width * rows) <= 3 * (width * height),
        width * height <= 0xFFFE_0001,
{
    assert(0 <= width * rows <= width * height && width * height <= 65535 * 65535) by (nonlinear_arith)
        requires
            0 <= width <= 65535,
            0 <= rows <= height <= 65535,
    ;
}

impl GifEncoder {
    /// Whether the state is one that rows lead to.
    pub open spec fn wf(&self) -> bool {
        &&& 2 <= self.colours <= 256
        &&& self.state matches Some(s) ==> ({
            &&& s.width <= 65535
            &&& s.height <= 65535
            &&& s.rows_written <= s.height
            &&& encodable(s.format)
            &&& s.rgb@.len() <= 3 * (s.width * s.rows_written)
        })
    }

    /// An encoder with a full palette and dithering.
    pub fn new() -> (r: GifEncoder)
        ensures
            r.dither is FloydSteinberg,
            r.colours == 256,
            r.state is None,
            r.wf(),
    {
        GifEncoder { dither: Dither::FloydSteinberg, colours: 256, state: None }
    }

    /// An encoder that aims for at most `colours` palette entries. Fewer than 2 or
    /// more than 256 is an invalid argument.
    pub fn with_colours(self, colours: usize) -> (r: Outcome<GifEncoder>)
        requires
            self.wf(),
        ensures
            r is Ok <==> 2 <= colours <= 256,
            r is Ok ==> r->Ok_0 == (GifEncoder { colours, ..self }) && r->Ok_0.wf(),
            r is Err ==> r->Err_0.kind() == ErrorCode::InvalidArgument,
            r is Err ==> r->Err_0.words() == "palette size must be in 2..=256, got "@ + number(colours as int),
    {
        if colours < 2 || colours > 256 {
            return Err(
                Message::new("palette size must be in 2..=256, got ").then_number(colours as u64).invalid_argument(),
            );
        }
        let mut encoder = self;
        encoder.colours = colours;
        Ok(encoder)
    }

    /// An encoder with dithering disabled.
    pub fn without_dithering(self) -> (r: GifEncoder)
        ensures
            r == (GifEncoder { dither: Dither::Off, ..self }),
            self.wf() ==> r.wf(),
    {
        let mut encoder = self;
        encoder.dither = Dither::Off;
        encoder
    }

    /// An encoder by generic options. The quality, held to 1 to 100, is the palette
    /// size, from 2 to 256 entries.
    pub fn from_options(options: &EncodeOptions) -> (r: GifEncoder)
        ensures
            r.dither is FloydSteinberg,
            r.colours == 2 + (clamp(options.quality as int, 1, 100) - 1) * 254 / 99,
            r.state is None,
            r.wf(),
    {
        let quality: usize = if options.quality < 1 {
            1
        } else if options.quality > 100 {
            100
        } else {
            options.quality as usize
        };
        GifEncoder { dither: Dither::FloydSteinberg, colours: 2 + (quality - 1) * 254 / 99, state: None }
    }

    /// The palette size this encoder aims for.
    pub fn colours(&self) -> (r: usize)
        ensures
            r == self.colours,
    {
        self.colours
    }

    /// Whether dimensions may be fixed. A second time is an invalid argument.
    /// Dimensions of more than sixteen bits are unsupported.
    pub fn check_header(&self, width: u32, height: u32) -> (r: Outcome<()>)
        ensures
            r is Ok <==> self.state is None && width <= 65535 && height <= 65535,
            r is Err ==> r->Err_0.fault() == (if self.state is Some {
                Fault { kind: ErrorCode::InvalidArgument, words: "write_header called more than once"@ }
            } else {
                unsupported(dimensions_fault(width as int, height as int))
            }),
    {
        if self.state.is_some() {
            return Err(PixelsError::invalid_argument("write_header called more than once"));
        }
        if width > 65535 || height > 65535 {
            return Err(
                Message::new("GIF dimensions are 16-bit; ").then_number(width as u64).then_text("x").then_number(
                    height as u64,
                ).then_text(" does not fit").unsupported(),
            );
        }
        Ok(())
    }

    /// Fix the dimensions and the format of the rows. A second call is an invalid
    /// argument. Dimensions of more than sixteen bits, or a format of more than
    /// eight bits, are unsupported. Nothing is written yet.
    pub fn write_header(&mut self, width: u32, height: u32, format: PixelFormat) -> (r: Outcome<()>)
        requires
            old(self).wf(),
        ensures
            r is Ok <==> old(self).state is None && width <= 65535 && height <= 65535 && encodable(format),
            r is Ok ==> final(self).dither == old(self).dither && final(self).colours == old(self).colours && ({
                &&& final(self).state matches Some(s)
                &&& s.width == width && s.height == height && s.format == format
                &&& s.rgb@ == Seq::<u8>::empty() && s.rows_written == 0
            }),
            r is Err ==> *final(self) == *old(self),
            r is Err ==> r->Err_0.kind() == (if old(self).state is Some {
                ErrorCode::InvalidArgument
            } else {
                ErrorCode::Unsupported
            }),
            r is Err ==> r->Err_0.words() == (if old(self).state is Some {
                "write_header called more than once"@
            } else if width > 65535 || height > 65535 {
                dimensions_fault(width as int, height as int)
            } else {
                depth_fault(format)
            }),
            final(self).wf(),
    {
        self.check_header(width, height)?;
        let mut none: Vec<u8> = Vec::new();
        append_as_rgb(&[], format, &mut none)?;
        self.state = Some(State { width, height, format, rgb: Vec::new(), rows_written: 0 });
        proof {
            lemma_rows_fit(width as int, 0, height as int);
        }
        Ok(())
    }

    /// Gather one row. A row before the header, of another length than its format
    /// says, or behind the last one, is an invalid argument.
    pub fn write_row(&mut self, row: &[u8]) -> (r: Outcome<()>)
        requires
            old(self).wf(),
        ensures
            r is Ok <==> (old(self).state matches Some(s) && row@.len() == s.width * s.format.size() && s.rows_written
                < s.height),
            r is Ok ==> final(self).dither == old(self).dither && final(self).colours == old(self).colours && ({
                &&& old(self).state matches Some(was)
                &&& final(self).state matches Some(s)
                &&& s.width == was.width && s.height == was.height && s.format == was.format
                &&& s.rgb@ == was.rgb@ + as_rgb(row@, was.format) && s.rows_written == was.rows_written + 1
            }),
            r is Err ==> r->Err_0.kind() == ErrorCode::InvalidArgument && *final(self) == *old(self),
            r is Err ==> r->Err_0.words() == (match old(self).state {
                None => "write_row called before write_header"@,
                Some(s) => if row@.len() != s.width * s.format.size() {
                    "row is "@ + number(row@.len() as int) + " bytes, expected "@ + number(s.width * s.format.size())
                } else {
                    "more than "@ + number(s.height as int) + " rows written"@
                },
            }),
            final(self).wf(),
    {
        let taken = self.state.take();
        let mut state = match taken {
            None => {
                return Err(PixelsError::invalid_argument("write_row called before write_header"));
            },
            Some(s) => s,
        };
        proof {
            let (w, n) = (state.width as int, state.format.size());
            assert(0 <= w * n <= 65535 * 8) by (nonlinear_arith)
                requires
                    0 <= w <= 65535,
                    0 <= n <= 8,
            ;
        }
        let expected = state.width as usize * state.format.bytes_per_pixel();
        if row.len() != expected {
            self.state = Some(state);
            return Err(
                Message::new("row is ").then_number(row.len() as u64).then_text(" bytes, expected ").then_number(
                    expected as u64,
                ).invalid_argument(),
            );
        }
        if state.rows_written >= state.height {
            let height = state.height;
            self.state = Some(state);
            return Err(
                Message::new("more than ").then_number(height as u64).then_text(" rows written").invalid_argument(),
            );
        }
        let ghost was = state;
        let appended = append_as_rgb(row, state.format, &mut state.rgb);
        proof {
            lemma_row_length(row@, was.format, was.width as int);
            let (w, y) = (was.width as int, was.rows_written as int);
            assert(3 * (w * y) + 3 * w == 3 * (w * (y + 1))) by (nonlinear_arith);
        }
        state.rows_written = state.rows_written + 1;
        self.state = Some(state);
        appended
    }
}

/// A row is three bytes for each of its pixels.
proof fn lemma_row_length(row: Seq<u8>, format: PixelFormat, width: int)
    requires
        encodable(format),
        width >= 0,
        row.len() == width * format.size(),
    ensures
        as_rgb(row, format).len() == 3 * width,
{
}

/// An image as indices into a palette.
#[derive(Debug)]
pub struct Quantized {
    /// The width.
    pub width: u16,
    /// The height.
    pub height: u16,
    /// The palette.
    pub palette: Palette,
    /// An index for each pixel.
    pub indices: Vec<u8>,
}

/// The least width of a code for a palette of `len` entries: the bits of an index,
/// and at least two.
pub open spec fn code_width(len: int) -> int {
    if bits_for(len) < 2 {
        2
    } else {
        bits_for(len)
    }
}

/// A table padded with black to a power of two.
pub open spec fn padded_table(entries: Seq<[u8; 3]>) -> Seq<[u8; 3]> {
    Seq::new(
        p2(bits_for(entries.len() as int)) as nat,
        |i: int|
            if i < entries.len() {
                entries[i]
            } else {
                [0u8, 0u8, 0u8]
            },
    )
}

/// The bytes of a table.
pub open spec fn flat(entries: Seq<[u8; 3]>) -> Seq<u8> {
    Seq::new((3 * entries.len()) as nat, |k: int| entries[k / 3]@[k % 3])
}

/// The header of a stream: signature, canvas, a global table of `2^bits` entries,
/// background zero and no aspect ratio.
pub open spec fn header_bytes(width: u16, height: u16, bits: int) -> Seq<u8> {
    SIGNATURE_89A@ + seq![
        (width % 256) as u8,
        (width / 256) as u8,
        (height % 256) as u8,
        (height / 256) as u8,
        (240 + (bits - 1)) as u8,
        0u8,
        0u8,
    ]
}

/// The descriptor of a frame that covers the canvas, with the least width of a
/// code behind it.
pub open spec fn frame_bytes(width: u16, height: u16, code_bits: int) -> Seq<u8> {
    seq![
        IMAGE,
        0u8,
        0u8,
        0u8,
        0u8,
        (width % 256) as u8,
        (width / 256) as u8,
        (height % 256) as u8,
        (height / 256) as u8,
        0u8,
        code_bits as u8,
    ]
}

/// A whole stream of one frame.
pub open spec fn assembled(width: u16, height: u16, entries: Seq<[u8; 3]>, compressed: Seq<u8>) -> Seq<u8> {
    header_bytes(width, height, bits_for(entries.len() as int)) + flat(padded_table(entries)) + frame_bytes(
        width,
        height,
        code_width(entries.len() as int),
    ) + chained(compressed) + seq![TRAILER]
}

impl Quantized {
    /// The least width of a code for the indices.
    pub fn minimum_width(&self) -> (r: u32)
        ensures
            r == code_width(self.palette@.len() as int),
    {
        let bits = self.palette.code_bits();
        if bits < 2 {
            2
        } else {
            bits
        }
    }

    /// Write the stream, with the indices compressed.
    pub fn assemble(&self, compressed: &[u8]) -> (r: Vec<u8>)
        requires
            self.palette.wf(),
        ensures
            r@ == assembled(self.width, self.height, self.palette@, compressed@),
    {
        let (width, height) = (self.width, self.height);
        let bits = self.palette.code_bits();
        let mut out: Vec<u8> = Vec::new();
        append_bytes(&mut out, &SIGNATURE_89A);
        out.push((width % 256) as u8);
        out.push((width / 256) as u8);
        out.push((height % 256) as u8);
        out.push((height / 256) as u8);
        out.push(240 + (bits - 1) as u8);
        out.push(0);
        out.push(0);
        assert(out@ =~= header_bytes(width, height, bits as int));
        let ghost head = out@;
        let table = self.palette.padded();
        assert(table@ =~= padded_table(self.palette@));
        let ghost all = flat(table@);
        let mut i: usize = 0;
        assert(out@ =~= head + all.take(0));
        while i < table.len()
            invariant
                i <= table@.len(),
                all == flat(table@),
                out@ == head + all.take(3 * i),
            decreases table@.len() - i,
        {
            let entry = table[i];
            out.push(entry[0]);
            out.push(entry[1]);
            out.push(entry[2]);
            proof {
                assert(all[3 * i] == entry@[0] && all[3 * i + 1] == entry@[1] && all[3 * i + 2] == entry@[2]);
                assert(out@ =~= head + all.take(3 * (i + 1)));
            }
            i = i + 1;
        }
        assert(all.take(all.len() as int) =~= all);
        let ghost with_table = out@;
        out.push(IMAGE);
        out.push(0);
        out.push(0);
        out.push(0);
        out.push(0);
        out.push((width % 256) as u8);
        out.push((width / 256) as u8);
        out.push((height % 256) as u8);
        out.push((height / 256) as u8);
        out.push(0);
        out.push(self.minimum_width() as u8);
        assert(out@ =~= with_table + frame_bytes(width, height, code_width(self.palette@.len() as int)));
        write_sub_blocks(&mut out, compressed);
        let ghost body = out@;
        out.push(TRAILER);
        assert(out@ =~= body + seq![TRAILER]);
        out
    }
}

impl GifEncoder {
    /// The gathered image as indices into a palette. An image of which not every
    /// row is there is malformed.
    pub fn quantized(&self) -> (r: Outcome<Quantized>)
        requires
            self.wf(),
        ensures
            r is Ok <==> (self.state matches Some(s) && s.rows_written == s.height),
            r is Ok ==> ({
                let s = self.state->0;
                let q = r->Ok_0;
                &&& q.width == s.width && q.height == s.height
                &&& q.palette.wf()
                &&& codes(q.palette@) == palette_of(s.rgb@, self.colours as int)
                &&& numbers(q.indices@) == indices_of(s.rgb@, s.width as int, q.palette@, self.dither)
            }),
            r is Err ==> r->Err_0.kind() == ErrorCode::Malformed,
            r is Err ==> r->Err_0.words() == (match self.state {
                None => "finish called before write_header"@,
                Some(s) => number(s.rows_written as int) + " of "@ + number(s.height as int)
                    + " rows written; a partial image is never emitted"@,
            }),
    {
        match &self.state {
            None => Err(PixelsError::malformed("finish called before write_header")),
            Some(s) => {
                if s.rows_written != s.height {
                    return Err(
                        Message::counting(s.rows_written as u64).then_text(" of ").then_number(
                            s.height as u64,
                        ).then_text(" rows written; a partial image is never emitted").malformed(),
                    );
                }
                proof {
                    lemma_rows_fit(s.width as int, s.rows_written as int, s.height as int);
                }
                let palette = build_palette(s.rgb.as_slice(), self.colours);
                let indices = quantize(s.rgb.as_slice(), s.width as usize, &palette, self.dither);
                Ok(Quantized { width: s.width as u16, height: s.height as u16, palette, indices })
            },
        }
    }

    /// Let go of the gathered image.
    pub fn release(&mut self)
        requires
            old(self).wf(),
        ensures
            final(self).wf(),
            final(self).dither == old(self).dither,
            final(self).colours == old(self).colours,
            final(self).state is Some <==> old(self).state is Some,
            old(self).state matches Some(was) ==> ({
                let s = final(self).state->0;
                &&& s.width == was.width && s.height == was.height && s.format == was.format
                &&& s.rows_written == was.rows_written && s.rgb@ == Seq::<u8>::empty()
            }),
    {
        let taken = self.state.take();
        if let Some(s) = taken {
            proof {
                lemma_rows_fit(s.width as int, s.rows_written as int, s.height as int);
            }
            let mut state = s;
            state.rgb = Vec::new();
            self.state = Some(state);
        }
    }
}

} // verus!
