//! What holds of a stream and of what it shows, byte by byte: the fields of its blocks, the
//! order of interlaced rows, the pixels of frames and what is left when they are
//! disposed of.
use super::canvas::{frame_cover, fill_cover, inside, lemma_covered, lemma_previous_undoes, stored_index, Pane};
use super::decoder::{opened, walk, CodedAt, Found, Reel, MAX_EXTENSION};
use super::encoder::{as_rgb, assembled, blended, flat, header_bytes, padded_table};
use super::format::{chained, lemma_chain_round_trip, lemma_pass_rows, lemma_skip_is_read, stored_at, table_size, GraphicControl, ImageDescriptor, Screen};
use super::quantize::{bits_for, lemma_bits_suffice};
use crate::math::{lemma_p2_pos, lemma_p2_values, p2};
use crate::pixel::PixelFormat;
use vstd::prelude::*;

verus! {

/// The screen's fields are its bytes: two for each side, the low one first, then the size of
/// the table, which doubles with each step of its three bits, and the background.
pub proof fn lemma_screen_fields(bytes: Seq<u8>)
    requires
        bytes.len() == 7,
    ensures
        ({
            let s = Screen::of(bytes);
            &&& s.width == bytes[0] + 256 * bytes[1]
            &&& s.height == bytes[2] + 256 * bytes[3]
            &&& s.background == bytes[5]
            &&& s.global_table_size == table_size(bytes[4])
        }),
{
    lemma_tables(bytes[4]);
}

/// A table has entries where its flag is set: two where its three bits are zero, and twice as
/// many for each step.
pub proof fn lemma_tables(packed: u8)
    ensures
        packed < 128 ==> table_size(packed) == 0,
        packed >= 128 && packed % 8 == 0 ==> table_size(packed) == 2,
        packed >= 128 && packed % 8 > 0 ==> table_size(packed) == 2 * table_size((packed - 1) as u8),
        packed >= 128 && packed < 248 ==> table_size(packed) == table_size((packed + 8) as u8),
        0 <= table_size(packed) <= 256,
{
    lemma_p2_values();
    if packed >= 128 && packed % 8 > 0 {
        assert((packed - 1) as u8 % 8 == packed % 8 - 1);
        assert(p2(packed % 8 + 1) == 2 * p2((packed % 8) as int));
    }
    if packed < 248 {
        assert((packed + 8) as u8 % 8 == packed % 8);
    }
}

/// The fields of an image are its bytes, the low one of two first.
pub proof fn lemma_image_fields(bytes: Seq<u8>)
    requires
        bytes.len() == 9,
    ensures
        ({
            let d = ImageDescriptor::of(bytes);
            &&& d.left == bytes[0] + 256 * bytes[1]
            &&& d.top == bytes[2] + 256 * bytes[3]
            &&& d.width == bytes[4] + 256 * bytes[5]
            &&& d.height == bytes[6] + 256 * bytes[7]
            &&& d.local_table_size == table_size(bytes[8])
            &&& bytes[8] < 64 ==> !d.interlaced
            &&& 64 <= bytes[8] < 128 ==> d.interlaced
            &&& 128 <= bytes[8] < 192 ==> !d.interlaced
            &&& 192 <= bytes[8] ==> d.interlaced
        }),
{
    lemma_tables(bytes[8]);
}

/// A control's fields are its bytes: whether there is a transparent index in the lowest bit,
/// the disposal two bits up, the delay with its low byte first, and the index.
pub proof fn lemma_control_fields(payload: Seq<u8>, disposal: int, shows: bool, reserved: int)
    requires
        payload.len() >= 4,
        0 <= disposal < 8,
        0 <= reserved < 8,
        payload[0] == 32 * reserved + 4 * disposal + if shows {
            1int
        } else {
            0
        },
    ensures
        ({
            let c = GraphicControl::of(payload);
            &&& c.delay_centiseconds == payload[1] + 256 * payload[2]
            &&& c.transparent == (if shows {
                Some(payload[3])
            } else {
                None
            })
            &&& disposal == 1 ==> c.disposal is Keep
            &&& disposal == 2 ==> c.disposal is Background
            &&& disposal == 3 ==> c.disposal is Previous
            &&& disposal == 0 || disposal > 3 ==> c.disposal is Unspecified
        }),
{
    let packed = payload[0] as int;
    let low: int = if shows {
        1
    } else {
        0
    };
    assert(packed == 4 * (8 * reserved + disposal) + low);
    assert(packed / 4 == 8 * reserved + disposal);
    assert((8 * reserved + disposal) % 8 == disposal);
    assert(packed % 2 == low);
}

/// Interlaced rows come in passes: every eighth row first, then those four behind them, then
/// the rest of the even rows, then the odd ones; within a pass from the top down.
pub proof fn lemma_interlaced_order(a: int, b: int, height: int)
    requires
        0 <= a < height,
        0 <= b < height,
    ensures
        a % 8 == 0 && b % 8 != 0 ==> stored_at(a, height) < stored_at(b, height),
        a % 8 == 4 && b % 4 != 0 ==> stored_at(a, height) < stored_at(b, height),
        a % 4 == 2 && b % 2 == 1 ==> stored_at(a, height) < stored_at(b, height),
        a < b && (a % 8 == 0 && b % 8 == 0 || a % 8 == 4 && b % 8 == 4 || a % 4 == 2 && b % 4 == 2 || a % 2 == 1 && b % 2
            == 1) ==> stored_at(a, height) < stored_at(b, height),
        stored_at(0, height) == 0,
{
    lemma_pass_rows(height);
    let (q, r) = (height / 8, height % 8);
    assert(height == 8 * q + r);
    assert((height + 7) / 8 == q + (r + 7) / 8);
    assert((height + 3) / 8 == q + (r + 3) / 8);
    assert((height + 1) / 4 == 2 * q + (r + 1) / 4);
}

/// A frame shows its palette's colours: at each of its places, one after the other, the entry
/// that its index says, opaque, unless the index is the transparent one.
pub proof fn lemma_frame_shows(
    p: Pane,
    image: ImageDescriptor,
    indices: Seq<u8>,
    palette: Seq<[u8; 3]>,
    transparent: Option<u8>,
    column: int,
    row: int,
)
    requires
        p.wf(),
        !image.interlaced,
        0 <= column < image.width,
        0 <= row < image.height,
        p.has(image.left + column, image.top + row),
        indices.len() == image.width * image.height,
        indices[row * image.width + column] < palette.len(),
        transparent != Some(indices[row * image.width + column]),
    ensures
        ({
            let q = p.drawn(image, indices, palette, transparent);
            let at = 4 * ((image.top + row) * p.width + (image.left + column));
            let colour = palette[indices[row * image.width + column] as int];
            &&& q.data.len() == p.data.len()
            &&& q.data[at] == colour@[0]
            &&& q.data[at + 1] == colour@[1]
            &&& q.data[at + 2] == colour@[2]
            &&& q.data[at + 3] == 255
        }),
{
    let (x, y) = (image.left + column, image.top + row);
    let cover = frame_cover(image, indices, palette, transparent);
    let (w, h) = (image.width as int, image.height as int);
    assert(0 <= row * w + column < w * h) by (nonlinear_arith)
        requires
            0 <= column < w,
            0 <= row < h,
    ;
    assert(stored_index(image, x, y) == row * image.width + column);
    lemma_covered(p, cover, x, y);
    let q = p.covered(cover);
    let v = q.pixel(x, y);
    let at = 4 * (y * p.width + x);
    assert(0 <= at && at + 4 <= p.data.len()) by (nonlinear_arith)
        requires
            at == 4 * (y * p.width + x),
            0 <= x < p.width,
            0 <= y < p.height,
            p.data.len() == 4 * (p.width * p.height),
    ;
    assert(v[0] == q.data[at] && v[1] == q.data[at + 1] && v[2] == q.data[at + 2] && v[3] == q.data[at + 3]);
}

/// A frame that is kept stays; one that is restored to the background leaves a rectangle of
/// it, transparent where the frame had a transparent index; one that is restored to what was
/// before leaves the canvas as it was before it was drawn.
pub proof fn lemma_disposals(r: Reel, coded: CodedAt, indices: Seq<u8>, x: int, y: int)
    requires
        r.canvas.wf(),
        r.canvas.has(x, y),
        r.background.len() == 4,
    ensures
        ({
            let after = r.with_frame(coded, indices);
            let (drawn, left) = (after.canvas, after.disposed());
            &&& coded.control.disposal is Keep ==> left == drawn
            &&& coded.control.disposal is Unspecified ==> left == drawn
            &&& coded.control.disposal is Previous ==> left == r.canvas
            &&& coded.control.disposal is Background && !inside(coded.image, x, y) ==> left.pixel(x, y) == r.canvas.pixel(x, y)
            &&& coded.control.disposal is Background && inside(coded.image, x, y) ==> left.pixel(x, y) == (
            if coded.control.transparent is Some {
                seq![0u8, 0u8, 0u8, 0u8]
            } else {
                r.background
            })
        }),
{
    let after = r.with_frame(coded, indices);
    lemma_previous_undoes(r.canvas, coded.image, indices, coded.palette, coded.control.transparent);
    let cover = frame_cover(coded.image, indices, coded.palette, coded.control.transparent);
    lemma_covered(r.canvas, cover, x, y);
    let value = if coded.control.transparent is Some {
        seq![0u8, 0u8, 0u8, 0u8]
    } else {
        r.background
    };
    lemma_covered(after.canvas, fill_cover(coded.image, value), x, y);
}

/// A stream starts with a transparent canvas of the size its header gives, and the
/// background is the entry of its colours that the header names, opaque.
pub proof fn lemma_opened_is_transparent(f: Seq<u8>, k: int)
    requires
        opened(f) is Some,
    ensures
        ({
            let r = opened(f)->0;
            &&& r.canvas.width == f[6] + 256 * f[7]
            &&& r.canvas.height == f[8] + 256 * f[9]
            &&& 0 <= k < r.canvas.data.len() ==> r.canvas.data[k] == 0
            &&& r.canvas.data.len() == 4 * (r.canvas.width * r.canvas.height)
            &&& r.global.len() == table_size(f[10])
            &&& f[11] < r.global.len() ==> r.background == seq![
                f[13 + 3 * f[11]],
                f[14 + 3 * f[11]],
                f[15 + 3 * f[11]],
                255u8,
            ]
            &&& f[11] >= r.global.len() ==> r.background == seq![0u8, 0u8, 0u8, 0u8]
        }),
{
    lemma_tables(f[10]);
    let (w, h) = (f[6] + 256 * f[7], f[8] + 256 * f[9]);
    assert(w * h >= 0) by (nonlinear_arith)
        requires
            w >= 0,
            h >= 0,
    ;
}

/// A value over black is the nearest to its share by alpha: itself where it is opaque, and
/// black where it is transparent.
pub proof fn lemma_blended_is_nearest(value: u8, alpha: u8)
    ensures
        -127 <= 255 * blended(value, alpha) - value * alpha <= 127,
        alpha == 255 ==> blended(value, alpha) == value,
        alpha == 0 ==> blended(value, alpha) == 0,
{
    let (v, a) = (value as int, alpha as int);
    assert(0 <= v * a <= 65025) by (nonlinear_arith)
        requires
            0 <= v <= 255,
            0 <= a <= 255,
    ;
    assert(a == 255 ==> v * a == 255 * v) by (nonlinear_arith);
    assert(a == 0 ==> v * a == 0) by (nonlinear_arith);
}

/// The three bytes of a pixel are its own; those of a gray one are its value thrice; and alpha
/// blends each of them over black.
pub proof fn lemma_pixels_as_rgb(row: Seq<u8>, i: int, c: int)
    requires
        0 <= i,
        0 <= c < 3,
    ensures
        as_rgb(row, PixelFormat::Rgb8) == row,
        i < row.len() ==> as_rgb(row, PixelFormat::Gray8)[3 * i + c] == row[i],
        4 * i + 3 < row.len() ==> as_rgb(row, PixelFormat::Rgba8)[3 * i + c] == blended(row[4 * i + c], row[4 * i + 3]),
        2 * i + 1 < row.len() ==> as_rgb(row, PixelFormat::GrayA8)[3 * i + c] == blended(row[2 * i], row[2 * i + 1]),
        as_rgb(row, PixelFormat::Gray8).len() == 3 * row.len(),
{
    let k = 3 * i + c;
    assert(k / 3 == i && k % 3 == c);
}

/// A written stream starts with its signature, the sides of the canvas with the low byte
/// first, the size of its table and the table, padded with black; then comes one frame that
/// covers the canvas, and at the end the trailer.
pub proof fn lemma_written_bytes(width: u16, height: u16, entries: Seq<[u8; 3]>, compressed: Seq<u8>, i: int, c: int)
    requires
        1 <= entries.len() <= 256,
        0 <= i < p2(bits_for(entries.len() as int)),
        0 <= c < 3,
    ensures
        ({
            let f = assembled(width, height, entries, compressed);
            let bits = bits_for(entries.len() as int);
            let at = 13 + 3 * p2(bits);
            &&& f.len() == at + 11 + chained(compressed).len() + 1
            &&& f[0] == 0x47 && f[1] == 0x49 && f[2] == 0x46 && f[3] == 0x38 && f[4] == 0x39 && f[5] == 0x61
            &&& f[6] + 256 * f[7] == width
            &&& f[8] + 256 * f[9] == height
            &&& f[10] >= 128 && f[10] % 8 + 1 == bits
            &&& f[11] == 0 && f[12] == 0
            &&& f[13 + 3 * i + c] == (if i < entries.len() {
                entries[i]@[c]
            } else {
                0
            })
            &&& f[at] == 0x2C
            &&& f[at + 1] == 0 && f[at + 2] == 0 && f[at + 3] == 0 && f[at + 4] == 0
            &&& f[at + 5] + 256 * f[at + 6] == width
            &&& f[at + 7] + 256 * f[at + 8] == height
            &&& f[at + 9] == 0
            &&& f[at + 10] == (if bits < 2 {
                2
            } else {
                bits
            })
            &&& f.subrange(at + 11, f.len() - 1) == chained(compressed)
            &&& f.last() == 0x3B
        }),
{
    let bits = bits_for(entries.len() as int);
    lemma_bits_suffice(entries.len() as int);
    lemma_p2_values();
    lemma_p2_pos(bits);
    let f = assembled(width, height, entries, compressed);
    let table = flat(padded_table(entries));
    let head = header_bytes(width, height, bits);
    assert(head.len() == 13);
    assert(table.len() == 3 * p2(bits));
    let at = 13 + 3 * p2(bits);
    assert(f[10] == head[10]);
    assert((240 + (bits - 1)) as u8 % 8 == bits - 1);
    let k = 3 * i + c;
    assert(k / 3 == i && k % 3 == c);
    assert(f[13 + k] == table[k]);
    assert(f.subrange(at + 11, f.len() - 1) =~= chained(compressed));
}

/// A payload in sub-blocks: up to 255 bytes behind their number, then the rest of it; a
/// number of zero ends it.
pub proof fn lemma_chained_bytes(payload: Seq<u8>)
    ensures
        payload.len() == 0 ==> chained(payload) == seq![0u8],
        0 < payload.len() <= 255 ==> chained(payload) == seq![payload.len() as u8] + payload + seq![0u8],
        payload.len() > 255 ==> chained(payload) == seq![255u8] + payload.take(255) + chained(payload.skip(255)),
        chained(payload).len() == payload.len() + (payload.len() + 254) / 255 + 1,
    decreases payload.len(),
{
    if 0 < payload.len() <= 255 {
        let n = payload.len() as int;
        assert(payload.take(n) =~= payload);
        assert(payload.skip(n) =~= Seq::<u8>::empty());
        assert(chained(payload.skip(n)) == seq![0u8]);
        assert(chained(payload) =~= seq![n as u8] + payload + seq![0u8]);
        assert((n + 254) / 255 == 1);
    } else if payload.len() > 255 {
        lemma_chained_bytes(payload.skip(255));
        let n = payload.len() as int;
        assert((n + 254) / 255 == (n - 255 + 254) / 255 + 1);
    }
}

/// Blocks before an image: a graphic control sets what is said of it, and any other extension
/// changes nothing.
pub proof fn lemma_extensions_before_an_image(label: u8, payload: Seq<u8>, rest: Seq<u8>, control: GraphicControl)
    requires
        payload.len() <= 255,
    ensures
        label != 0xF9 ==> walk(seq![0x21u8, label] + chained(payload) + rest, control) == walk(rest, control),
        walk(seq![0x21u8, 0xF9u8] + chained(payload) + rest, control) == walk(rest, GraphicControl::of(payload)),
        walk(seq![0x2Cu8] + rest, control) == Some(Found::Image(control, rest)),
        walk(seq![0x3Bu8] + rest, control) == Some(Found::End(rest)),
{
    let s = seq![0x21u8, label] + chained(payload) + rest;
    let g = seq![0x21u8, 0xF9u8] + chained(payload) + rest;
    assert(s.skip(2) =~= chained(payload) + rest);
    assert(g.skip(2) =~= chained(payload) + rest);
    lemma_chain_round_trip(payload, rest, MAX_EXTENSION as int);
    lemma_skip_is_read(chained(payload) + rest, MAX_EXTENSION as int);
    assert((seq![0x2Cu8] + rest).skip(1) =~= rest);
    assert((seq![0x3Bu8] + rest).skip(1) =~= rest);
    reveal_with_fuel(walk, 2);
}

} // verus!
