//! What the decoder reads of what the encoder writes.
use super::canvas::{frame_cover, inside, lemma_covered, opaque_pixel, stored_index, Pane};
use super::decoder::{header, image_at, opened, table_at, walk, CodedAt, Found, MAX_COMPRESSED};
use super::encoder::{assembled, code_width, flat, frame_bytes, header_bytes, padded_table};
use super::format::{
    chained, lemma_chain_round_trip, le16, table_size, GraphicControl, ImageDescriptor, Screen, SIGNATURE_89A,
};
use super::label::{IMAGE, TRAILER};
use super::median_cut::{codes, histogram, lemma_few_colours_are_exact, lemma_palette_size, palette_of};
use super::quantize::{
    bits_for, entry_at, indices_of, lemma_exact_quantization, numbers, pixel_at, Dither, Rgb,
};
use crate::math::{clamp, lemma_p2_values, p2};
use vstd::prelude::*;

verus! {

/// The screen that an encoded stream has.
pub open spec fn written_screen(width: u16, height: u16, entries: Seq<[u8; 3]>) -> Screen {
    Screen { width, height, global_table_size: p2(bits_for(entries.len() as int)) as usize, background: 0 }
}

/// The descriptor of the frame that an encoded stream has.
pub open spec fn written_frame(width: u16, height: u16) -> ImageDescriptor {
    ImageDescriptor { left: 0, top: 0, width, height, local_table_size: 0, interlaced: false }
}

/// The two bytes of a number are that number.
proof fn lemma_le16(v: u16)
    ensures
        le16((v % 256) as u8, (v / 256) as u8) == v,
{
}

/// What is behind the table of an encoded stream.
pub open spec fn written_body(width: u16, height: u16, entries: Seq<[u8; 3]>, compressed: Seq<u8>) -> Seq<u8> {
    frame_bytes(width, height, code_width(entries.len() as int)) + (chained(compressed) + seq![TRAILER])
}

/// The header of an encoded stream reads back, and so does its table.
proof fn lemma_header_reads_back(width: u16, height: u16, entries: Seq<[u8; 3]>, compressed: Seq<u8>)
    requires
        width > 0,
        height > 0,
        entries.len() <= 256,
    ensures
        ({
            let f = assembled(width, height, entries, compressed);
            let rest = flat(padded_table(entries)) + written_body(width, height, entries, compressed);
            let n = padded_table(entries).len() as int;
            &&& header(f) == Some((written_screen(width, height, entries), rest))
            &&& n == p2(bits_for(entries.len() as int))
            &&& 2 <= n <= 256
            &&& rest.len() >= 3 * n
            &&& table_at(rest, n) == padded_table(entries)
            &&& rest.skip(3 * n) == written_body(width, height, entries, compressed)
        }),
{
    let f = assembled(width, height, entries, compressed);
    let bits = bits_for(entries.len() as int);
    let head = header_bytes(width, height, bits);
    let table = flat(padded_table(entries));
    let body = written_body(width, height, entries, compressed);
    let rest = table + body;
    let n = padded_table(entries).len() as int;
    lemma_p2_values();
    assert(f =~= head + rest);
    assert(head.len() == 13);
    assert(f.skip(13) =~= rest);
    assert(f.subrange(0, 6) =~= SIGNATURE_89A@);
    let s = f.subrange(6, 13);
    assert(s =~= head.subrange(6, 13));
    assert(s[0] == (width % 256) as u8 && s[1] == (width / 256) as u8 && s[2] == (height % 256) as u8 && s[3] == (height
        / 256) as u8 && s[5] == 0);
    assert(s[4] == 240 + (bits - 1));
    lemma_le16(width);
    lemma_le16(height);
    assert(s[4] % 8 + 1 == bits);
    assert(table_size(s[4]) == p2(bits));
    assert(Screen::of(s) == written_screen(width, height, entries));
    assert(table.len() == 3 * n);
    assert(rest.skip(3 * n) =~= body);
    assert forall|i: int| 0 <= i < n implies #[trigger] table_at(rest, n)[i] == padded_table(entries)[i] by {
        let e = padded_table(entries)[i];
        assert(rest[3 * i] == table[3 * i] && rest[3 * i + 1] == table[3 * i + 1] && rest[3 * i + 2] == table[3 * i + 2]);
        assert(table[3 * i] == e@[0] && table[3 * i + 1] == e@[1] && table[3 * i + 2] == e@[2]);
        assert(entry_at(rest, i)@ =~= e@);
    }
    assert(table_at(rest, n) =~= padded_table(entries));
}

/// The frame of an encoded stream reads back, and nothing but the end is behind
/// it.
proof fn lemma_frame_reads_back(width: u16, height: u16, entries: Seq<[u8; 3]>, compressed: Seq<u8>)
    requires
        width > 0,
        height > 0,
        entries.len() <= 256,
        compressed.len() <= MAX_COMPRESSED,
    ensures
        ({
            let body = written_body(width, height, entries, compressed);
            let coded = CodedAt {
                image: written_frame(width, height),
                control: GraphicControl::absent(),
                palette: padded_table(entries),
                minimum_width: code_width(entries.len() as int) as u8,
                compressed,
            };
            &&& walk(body, GraphicControl::absent()) == Some(Found::Image(GraphicControl::absent(), body.skip(1)))
            &&& image_at(body.skip(1), padded_table(entries), GraphicControl::absent()) == Some(
                (coded, seq![TRAILER]),
            )
        }),
{
    let code = code_width(entries.len() as int);
    let body = written_body(width, height, entries, compressed);
    let tail = chained(compressed) + seq![TRAILER];
    let frame = frame_bytes(width, height, code);
    let s = body.skip(1);
    lemma_p2_values();
    assert(frame.len() == 11);
    assert(body[0] == IMAGE);
    let d = s.subrange(0, 9);
    assert(d =~= frame.subrange(1, 10));
    assert(d[0] == 0 && d[1] == 0 && d[2] == 0 && d[3] == 0 && d[8] == 0);
    assert(d[4] == (width % 256) as u8 && d[5] == (width / 256) as u8 && d[6] == (height % 256) as u8 && d[7] == (height
        / 256) as u8);
    lemma_le16(width);
    lemma_le16(height);
    assert(ImageDescriptor::of(d) == written_frame(width, height));
    assert(s[9] == code as u8);
    assert(s.skip(10) =~= tail);
    lemma_chain_round_trip(compressed, seq![TRAILER], MAX_COMPRESSED as int);
    assert(padded_table(entries).len() >= 2);
}

/// A decoder reads of an encoded stream one frame that covers the canvas, with the
/// padded palette and the compressed bytes that were written, and then the end.
pub proof fn lemma_written_reads_back(width: u16, height: u16, entries: Seq<[u8; 3]>, compressed: Seq<u8>)
    requires
        width > 0,
        height > 0,
        entries.len() <= 256,
        compressed.len() <= MAX_COMPRESSED,
        4 * (width * height) <= isize::MAX,
    ensures
        ({
            let start = opened(assembled(width, height, entries, compressed));
            let first = start->0.advanced();
            let second = (first->0).1.advanced();
            &&& start is Some
            &&& start->0.screen == written_screen(width, height, entries)
            &&& first is Some
            &&& (first->0).0 == Some(
                CodedAt {
                    image: written_frame(width, height),
                    control: GraphicControl::absent(),
                    palette: padded_table(entries),
                    minimum_width: code_width(entries.len() as int) as u8,
                    compressed,
                },
            )
            &&& (first->0).1.canvas == start->0.canvas
            &&& second is Some
            &&& (second->0).0 is None
            &&& (second->0).1.finished
        }),
{
    lemma_header_reads_back(width, height, entries, compressed);
    lemma_frame_reads_back(width, height, entries, compressed);
    let body = written_body(width, height, entries, compressed);
    let start = opened(assembled(width, height, entries, compressed))->0;
    assert(start.rest == body);
    assert(start.global == padded_table(entries));
    let after = (start.advanced()->0).1;
    assert(after.rest == seq![TRAILER]);
    assert(walk(after.rest, GraphicControl::absent()) == Some(Found::End(after.rest.skip(1))));
}

/// The canvas after the first frame of a stream is drawn from some indices.
#[verifier::opaque]
pub open spec fn first_shown(f: Seq<u8>, indices: Seq<u8>) -> Pane {
    let first = opened(f)->0.advanced()->0;
    first.1.with_frame(first.0->0, indices).canvas
}

/// A transparent canvas.
pub open spec fn blank(width: u16, height: u16) -> Pane {
    Pane {
        width: width as int,
        height: height as int,
        data: Seq::new((4 * (width * height)) as nat, |k: int| 0u8),
    }
}

/// The first frame of an encoded stream is drawn onto a transparent canvas.
proof fn lemma_first_shown(width: u16, height: u16, entries: Seq<[u8; 3]>, compressed: Seq<u8>, indices: Seq<u8>)
    requires
        width > 0,
        height > 0,
        entries.len() <= 256,
        compressed.len() <= MAX_COMPRESSED,
        4 * (width * height) <= isize::MAX,
    ensures
        first_shown(assembled(width, height, entries, compressed), indices) == blank(width, height).drawn(
            written_frame(width, height),
            indices,
            padded_table(entries),
            None,
        ),
{
    reveal(first_shown);
    lemma_written_reads_back(width, height, entries, compressed);
    lemma_header_reads_back(width, height, entries, compressed);
    let start = opened(assembled(width, height, entries, compressed))->0;
    assert(start.canvas =~= blank(width, height));
}

/// A pixel of a frame that covers a canvas is the entry of its index.
proof fn lemma_entry_shown(width: u16, height: u16, entries: Seq<[u8; 3]>, indices: Seq<u8>, x: int, y: int)
    requires
        entries.len() <= 256,
        0 <= x < width,
        0 <= y < height,
        y * width + x < indices.len(),
        indices[y * width + x] < entries.len(),
    ensures
        ({
            let e = entries[indices[y * width + x] as int];
            blank(width, height).drawn(written_frame(width, height), indices, padded_table(entries), None).pixel(x, y)
                == seq![e@[0], e@[1], e@[2], 255u8]
        }),
{
    let image = written_frame(width, height);
    let table = padded_table(entries);
    let cover = frame_cover(image, indices, table, None);
    let i = y * width + x;
    assert(0 <= y * width) by (nonlinear_arith)
        requires
            0 <= y,
    ;
    let area = width * height;
    assert(area >= 0) by (nonlinear_arith)
        requires
            area == width * height,
    ;
    lemma_p2_values();
    assert(inside(image, x, y));
    assert(stored_index(image, x, y) == i);
    assert(table[indices[i] as int] == entries[indices[i] as int]);
    assert(cover(x, y) == Some(opaque_pixel(table, indices[i])));
    lemma_covered(blank(width, height), cover, x, y);
}

/// The indices of an image with no more colours than its palette may have are those
/// of its colours.
proof fn lemma_indices_exact(
    rgb: Seq<u8>,
    width: int,
    height: int,
    colours: int,
    dither: Dither,
    entries: Seq<[u8; 3]>,
    indices: Seq<u8>,
    i: int,
)
    requires
        0 < width <= 65535,
        0 < height <= 65535,
        rgb.len() == 3 * (width * height),
        histogram(rgb).len() <= clamp(colours, 2, 256),
        codes(entries) == palette_of(rgb, colours),
        numbers(indices) == indices_of(rgb, width, entries, dither),
        0 <= i < width * height,
    ensures
        entries.len() <= 256,
        i < indices.len(),
        indices[i] < entries.len(),
        Rgb::of(entries[indices[i] as int]) == pixel_at(rgb, i),
{
    let (w, h) = (width, height);
    assert(w * h <= 0xFFFE_0001 && (w * h) / w == h && h * w == w * h) by (nonlinear_arith)
        requires
            0 < w <= 65535,
            0 < h <= 65535,
    ;
    lemma_palette_size(rgb, colours);
    assert(codes(entries).len() == entries.len());
    assert forall|j: int| 0 <= j < rgb.len() as int / 3 implies entries.contains(#[trigger] entry_at(rgb, j)) by {
        lemma_few_colours_are_exact(rgb, colours, entries, j);
    }
    assert(rgb.len() as int / 3 == w * h);
    lemma_exact_quantization(rgb, w, entries, dither, i);
    let all = indices_of(rgb, w, entries, dither);
    assert(all.len() == w * h);
    assert(numbers(indices)[i] == all[i]);
}

/// An image with no more colours than its palette may have round-trips exactly: the
/// decoder, given back the indices that the encoder made, shows every pixel as it
/// was, opaque.
pub proof fn lemma_flat_art_round_trips(
    rgb: Seq<u8>,
    width: u16,
    height: u16,
    colours: int,
    dither: Dither,
    entries: Seq<[u8; 3]>,
    indices: Seq<u8>,
    compressed: Seq<u8>,
    x: int,
    y: int,
)
    requires
        rgb.len() == 3 * (width * height),
        4 * (width * height) <= isize::MAX,
        histogram(rgb).len() <= clamp(colours, 2, 256),
        codes(entries) == palette_of(rgb, colours),
        numbers(indices) == indices_of(rgb, width as int, entries, dither),
        compressed.len() <= MAX_COMPRESSED,
        0 <= x < width,
        0 <= y < height,
    ensures
        ({
            let i = y * width + x;
            first_shown(assembled(width, height, entries, compressed), indices).pixel(x, y) == seq![
                rgb[3 * i],
                rgb[3 * i + 1],
                rgb[3 * i + 2],
                255u8,
            ]
        }),
{
    let (w, h) = (width as int, height as int);
    let i = y * w + x;
    assert(0 <= i < w * h) by (nonlinear_arith)
        requires
            i == y * w + x,
            0 <= x < w,
            0 <= y < h,
    ;
    lemma_indices_exact(rgb, w, h, colours, dither, entries, indices, i);
    lemma_first_shown(width, height, entries, compressed, indices);
    lemma_entry_shown(width, height, entries, indices, x, y);
    let e = entries[indices[i] as int];
    assert(Rgb::of(e) == pixel_at(rgb, i));
    assert(seq![e@[0], e@[1], e@[2], 255u8] =~= seq![rgb[3 * i], rgb[3 * i + 1], rgb[3 * i + 2], 255u8]);
}

} // verus!
