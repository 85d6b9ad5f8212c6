//! The AVIF decoder.
//!
//! Making a decoder reads boxes only. The whole picture is decoded when the first
//! row is asked for, since no part of a coded frame yields a part of the picture;
//! every row is then served from it.
use super::container::{
    container, format_of, lemma_described_is_bounded, locate_primary_frame, parse_container, pixel_format, primary_frame,
    AvifInfo, InfoAt,
};
use crate::av1::bits::bit_addressable;
use crate::av1::symbol::symbol_addressable;
use crate::av1::plane::{Plane, Samples};
use crate::av1::still::{still_in, StillPicture};
use crate::av1::tile::{decode_still, still, still_fault, DecodedFrame, Defaults};
use crate::error::{
    buffer_fault, malformed, rows_fault, unsupported, ErrorCode, Fault, Message, Outcome, PixelsError,
};
use crate::pixel::PixelFormat;
use vstd::prelude::*;
use vstd::slice::slice_subrange;

verus! {

/// The low byte of a plane's sample at a place; zero outside.
pub open spec fn byte_at(p: Samples, x: int, y: int) -> u8 {
    if p.has(x, y) {
        (p.sample(x, y) % 256) as u8
    } else {
        0
    }
}

/// The bytes of a picture, row by row, from the planes of its green, blue and red:
/// each pixel is its red, its green and its blue.
pub open spec fn interleaved(planes: Seq<Samples>, width: int, height: int) -> Seq<u8> {
    Seq::new(
        (3 * (width * height)) as nat,
        |k: int|
            {
                let (x, y) = (k / 3 % width, k / 3 / width);
                if k % 3 == 0 {
                    byte_at(planes[2], x, y)
                } else if k % 3 == 1 {
                    byte_at(planes[0], x, y)
                } else {
                    byte_at(planes[1], x, y)
                }
            },
    )
}

/// The bytes of the picture that a frame's bytes code. A picture of another matrix
/// than the identity, or of another format than three bytes a pixel, is unsupported.
pub open spec fn raster_of(info: InfoAt, frame: Seq<u8>, d: Defaults) -> Result<Seq<u8>, Fault> {
    match still_in(info.config.obus, frame) {
        Err(fault) => Err(fault),
        Ok((seq, header, at, len)) => {
            let planes = still(seq, header, frame.subrange(at, at + len), d);
            if (4 * header.size.mi_cols()) * (4 * header.size.mi_rows()) > usize::MAX {
                Err(Fault { kind: ErrorCode::LimitExceeded, words: "the frame is larger than can be addressed"@ })
            } else if planes is None {
                Err(still_fault(seq, header))
            } else if seq.color.matrix_coefficients != 0 {
                Err(unsupported("avif: only the identity colour matrix is implemented in the lossless path"@))
            } else if format_of(info) != PixelFormat::Rgb8 {
                Err(unsupported("avif: only pictures of three bytes a pixel are implemented"@))
            } else if planes->0.len() < 3 {
                Err(malformed("a colour plane is missing"@))
            } else {
                Ok(interleaved(planes->0, info.extents.width as int, info.extents.height as int))
            }
        },
    }
}

/// The low byte of a plane's sample at a place.
fn low_byte(p: &Plane, x: usize, y: usize) -> (r: u8)
    requires
        p@.wf(),
    ensures
        r == byte_at(p@, x as int, y as int),
{
    match p.get(x, y) {
        Some(v) => (v % 256) as u8,
        None => 0,
    }
}

/// Put three planes together.
fn interleave(frame: &DecodedFrame, width: usize, height: usize) -> (r: Vec<u8>)
    requires
        frame@.len() >= 3,
        forall|i: int| 0 <= i < frame@.len() ==> (#[trigger] frame@[i]).wf(),
        3 * (width * height) <= usize::MAX,
    ensures
        r@ == interleaved(frame@, width as int, height as int),
{
    assert(frame@[0] == frame.planes@[0]@ && frame@[1] == frame.planes@[1]@ && frame@[2] == frame.planes@[2]@);
    let ghost whole = interleaved(frame@, width as int, height as int);
    let mut raster: Vec<u8> = Vec::new();
    proof {
        assert(0 <= width * height) by (nonlinear_arith)
            requires
                0 <= width,
                0 <= height,
        ;
    }
    let pixels = width * height;
    let mut k: usize = 0;
    while k < pixels
        invariant
            k <= pixels,
            pixels == width * height,
            frame@.len() >= 3,
            frame@[0] == frame.planes@[0]@ && frame@[1] == frame.planes@[1]@ && frame@[2] == frame.planes@[2]@,
            frame@[0].wf() && frame@[1].wf() && frame@[2].wf(),
            3 * (width * height) <= usize::MAX,
            whole == interleaved(frame@, width as int, height as int),
            raster@ == whole.take(3 * k),
        decreases pixels - k,
    {
        proof {
            assert(width > 0) by (nonlinear_arith)
                requires
                    k < width * height,
                    k >= 0,
                    width >= 0,
            ;
        }
        let (x, y) = (k % width, k / width);
        raster.push(low_byte(&frame.planes[2], x, y));
        raster.push(low_byte(&frame.planes[0], x, y));
        raster.push(low_byte(&frame.planes[1], x, y));
        proof {
            let n = 3 * k;
            assert(n / 3 == k && (n + 1) / 3 == k && (n + 2) / 3 == k);
            assert(whole[n] == byte_at(frame@[2], x as int, y as int));
            assert(whole[n + 1] == byte_at(frame@[0], x as int, y as int));
            assert(whole[n + 2] == byte_at(frame@[1], x as int, y as int));
            assert(raster@ =~= whole.take(3 * (k + 1)));
        }
        k = k + 1;
    }
    assert(raster@ =~= whole);
    raster
}

/// Decode the picture that a frame's bytes code.
fn decode_raster(info: &AvifInfo, frame_data: &[u8], defaults: &Defaults) -> (r: Outcome<Vec<u8>>)
    requires
        defaults.wf(),
        bit_addressable(info@.config.obus.len()),
        symbol_addressable(frame_data@.len()),
        3 * (info.width * info.height) <= usize::MAX,
    ensures
        ({
            let m = raster_of(info@, frame_data@, *defaults);
            &&& r is Ok <==> m is Ok
            &&& r is Ok ==> r->Ok_0@ == m->Ok_0
            &&& r is Err ==> r->Err_0.fault() == m->Err_0
        }),
{
    let picture = StillPicture::parse(info.config.config_obus.as_slice(), frame_data)?;
    let at = picture.tile_data_offset;
    let tile = slice_subrange(frame_data, at, at + picture.tile_data_len);
    let (columns, rows) = (picture.frame.mi_cols as u64, picture.frame.mi_rows as u64);
    proof {
        let (a, b) = (columns as int, rows as int);
        assert(0 <= (4 * a) * (4 * b) <= 0x1_0000_0000) by (nonlinear_arith)
            requires
                0 <= a <= 0x4000,
                0 <= b <= 0x4000,
        ;
    }
    if (4 * columns) * (4 * rows) > usize::MAX as u64 {
        return Err(PixelsError::limit_exceeded("the frame is larger than can be addressed"));
    }
    let frame = decode_still(&picture.sequence, &picture.frame, tile, defaults)?;
    if picture.sequence.color.matrix_coefficients != 0 {
        return Err(PixelsError::unsupported("avif: only the identity colour matrix is implemented in the lossless path"));
    }
    if pixel_format(info) != PixelFormat::Rgb8 {
        return Err(PixelsError::unsupported("avif: only pictures of three bytes a pixel are implemented"));
    }
    if frame.planes.len() < 3 {
        return Err(PixelsError::malformed("a colour plane is missing"));
    }
    Ok(interleave(&frame, info.width as usize, info.height as usize))
}

/// What a decoder holds.
#[verifier::ext_equal]
pub struct Held {
    /// What the container says.
    pub info: InfoAt,
    /// The coded bytes of the primary image; none for a grid.
    pub frame: Option<Seq<u8>>,
    /// The rows served.
    pub row: int,
}

impl Held {
    /// The bytes of a row.
    pub open spec fn row_bytes(self) -> int {
        self.info.extents.width * format_of(self.info).size()
    }

    /// The picture. A grid is unsupported.
    pub open spec fn picture(self, d: Defaults) -> Result<Seq<u8>, Fault> {
        match self.frame {
            None => Err(unsupported("avif: grid images are not decoded yet"@)),
            Some(frame) => raster_of(self.info, frame, d),
        }
    }
}

/// What a file's decoder holds at first.
pub open spec fn opened(f: Seq<u8>) -> Result<Held, Fault> {
    match container(f) {
        Err(code) => Err(code),
        Ok(info) => if info.is_grid {
            Ok(Held { info, frame: None, row: 0 })
        } else {
            match primary_frame(f) {
                Err(code) => Err(code),
                Ok(frame) => Ok(Held { info, frame: Some(frame), row: 0 }),
            }
        },
    }
}

/// Decodes an AVIF file.
pub struct AvifDecoder<'a> {
    info: AvifInfo,
    frame_data: Option<Vec<u8>>,
    raster: Option<Vec<u8>>,
    row: u32,
    defaults: &'a Defaults,
}

impl<'a> View for AvifDecoder<'a> {
    type V = Held;

    closed spec fn view(&self) -> Held {
        Held {
            info: self.info@,
            frame: match self.frame_data {
                Some(data) => Some(data@),
                None => None,
            },
            row: self.row as int,
        }
    }
}

impl<'a> AvifDecoder<'a> {
    /// What decoding starts from.
    pub closed spec fn tables(&self) -> Defaults {
        *self.defaults
    }

    /// The bytes are few enough to address their bits, and a picture that was
    /// decoded is that of the frame.
    pub closed spec fn wf(&self) -> bool {
        &&& self.defaults.wf()
        &&& bit_addressable(self.info@.config.obus.len())
        &&& self@.frame is Some ==> symbol_addressable(self@.frame->0.len())
        &&& self.raster is Some ==> self@.picture(*self.defaults) == Ok::<Seq<u8>, Fault>(self.raster->0@)
    }

    /// Read a file's container, and describe its primary image. No sample is decoded.
    pub fn new(bytes: &[u8], defaults: &'a Defaults) -> (r: Outcome<AvifDecoder<'a>>)
        requires
            defaults.wf(),
            symbol_addressable(bytes@.len()),
        ensures
            ({
                let m = opened(bytes@);
                &&& r is Ok <==> m is Ok
                &&& r is Ok ==> r->Ok_0@ == m->Ok_0 && r->Ok_0.wf() && r->Ok_0.tables() == *defaults
                &&& r is Err ==> r->Err_0.fault() == m->Err_0
            }),
    {
        let info = parse_container(bytes)?;
        proof {
            lemma_described_is_bounded(bytes@);
        }
        let frame_data = if info.is_grid {
            None
        } else {
            Some(locate_primary_frame(bytes)?)
        };
        Ok(AvifDecoder { info, frame_data, raster: None, row: 0, defaults })
    }

    /// What the container says about the image.
    pub fn info(&self) -> (r: &AvifInfo)
        ensures
            r@ == self@.info,
    {
        &self.info
    }

    /// Read the next row. The picture is decoded on the first. A row past the last,
    /// and a buffer that is not as long as a row, are invalid.
    pub fn read_row(&mut self, out: &mut [u8]) -> (r: Outcome<()>)
        requires
            old(self).wf(),
            8 * (old(self)@.info.extents.width * old(self)@.info.extents.height) <= usize::MAX,
        ensures
            ({
                let (h, n) = (old(self)@, old(self)@.row_bytes());
                let picture = h.picture(old(self).tables());
                let asked = h.row < h.info.extents.height && old(out)@.len() == n;
                &&& r is Ok <==> asked && picture is Ok
                &&& r is Ok ==> final(out)@ == picture->Ok_0.subrange(h.row * n, h.row * n + n) && final(self)@ == (
                Held { row: h.row + 1, ..h })
                &&& r is Err ==> final(out)@ == old(out)@ && final(self)@ == h
                &&& r is Err ==> r->Err_0.fault() == if h.row >= h.info.extents.height {
                    Fault { kind: ErrorCode::InvalidArgument, words: rows_fault(h.info.extents.height as int) }
                } else if old(out)@.len() != n {
                    Fault { kind: ErrorCode::InvalidArgument, words: buffer_fault(old(out)@.len() as int, n) }
                } else {
                    picture->Err_0
                }
            }),
            final(self).wf(),
            final(self).tables() == old(self).tables(),
    {
        let ghost held = self@;
        if self.row >= self.info.height {
            return Err(
                Message::new("all ").then_number(self.info.height as u64).then_text(
                    " rows have already been read",
                ).invalid_argument(),
            );
        }
        let format = pixel_format(&self.info);
        let (width, height) = (self.info.width as usize, self.info.height as usize);
        proof {
            let (w, h, k) = (width as int, height as int, format.size());
            assert(0 <= w * k <= 8 * (w * h) && 0 <= w * h) by (nonlinear_arith)
                requires
                    0 <= w,
                    1 <= h,
                    1 <= k <= 8,
            ;
        }
        let row_bytes = width * format.bytes_per_pixel();
        if out.len() != row_bytes {
            return Err(
                Message::new("row buffer is ").then_number(out.len() as u64).then_text(" bytes, expected ").then_number(
                    row_bytes as u64,
                ).invalid_argument(),
            );
        }
        if self.raster.is_none() {
            match &self.frame_data {
                None => {
                    return Err(PixelsError::unsupported("avif: grid images are not decoded yet"));
                },
                Some(data) => {
                    let raster = decode_raster(&self.info, data.as_slice(), self.defaults)?;
                    self.raster = Some(raster);
                },
            }
        }
        assert(self@ =~= held);
        self.serve(out, row_bytes);
        Ok(())
    }

    /// Copy the next row of the decoded picture.
    fn serve(&mut self, out: &mut [u8], row_bytes: usize)
        requires
            old(self).wf(),
            old(self).raster is Some,
            old(self)@.row < old(self)@.info.extents.height,
            old(out)@.len() == row_bytes,
            row_bytes == old(self)@.row_bytes(),
        ensures
            ({
                let (h, n) = (old(self)@, old(self)@.row_bytes());
                &&& final(out)@ == h.picture(old(self).tables())->Ok_0.subrange(h.row * n, h.row * n + n)
                &&& final(self)@ == (Held { row: h.row + 1, ..h })
            }),
            final(self).wf(),
            final(self).tables() == old(self).tables(),
    {
        let ghost held = self@;
        match &self.raster {
            Some(raster) => {
                proof {
                    let (w, h, y) = (self.info.width as int, self.info.height as int, self.row as int);
                    assert(row_bytes == 3 * w);
                    assert(0 <= y * (3 * w) && y * (3 * w) + 3 * w <= 3 * (w * h)) by (nonlinear_arith)
                        requires
                            0 <= y < h,
                            0 <= w,
                    ;
                    assert(raster@.len() == raster.len());
                }
                let start = self.row as usize * row_bytes;
                let mut i: usize = 0;
                while i < row_bytes
                    invariant
                        i <= row_bytes,
                        out@.len() == row_bytes,
                        start + row_bytes <= raster@.len(),
                        start + row_bytes <= usize::MAX,
                        forall|j: int| 0 <= j < i ==> #[trigger] out@[j] == raster@[start + j],
                    decreases row_bytes - i,
                {
                    out[i] = raster[start + i];
                    i = i + 1;
                }
                assert(out@ =~= raster@.subrange(start as int, start + row_bytes));
            },
            None => {},
        }
        self.row = self.row + 1;
        assert(self@ =~= (Held { row: held.row + 1, ..held }));
    }
}

/// A picture that is decoded is whole: it has exactly the bytes of its rows, one
/// after the other.
pub proof fn lemma_picture_is_whole(h: Held, d: Defaults)
    requires
        h.picture(d) is Ok,
    ensures
        h.picture(d)->Ok_0.len() == h.info.extents.height * h.row_bytes(),
{
    let (width, height) = (h.info.extents.width as int, h.info.extents.height as int);
    assert(3 * (width * height) == height * (width * 3) && 0 <= width * height) by (nonlinear_arith)
        requires
            0 <= width,
            0 <= height,
    ;
}

} // verus!
