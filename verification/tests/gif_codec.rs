//! Encoding and decoding GIF.
use otf_pixels_codecs::error::{ErrorCode, Outcome};
use otf_pixels_codecs::gif::decoder::{probe, Frame, GifCodec, GifDecoder};
use otf_pixels_codecs::gif::encoder::{append_as_rgb, EncodeOptions, GifEncoder};
use otf_pixels_codecs::gif::format::{write_sub_blocks, Disposal};
use otf_pixels_codecs::gif::label::TRAILER;
use otf_pixels_codecs::pixel::{Format, PixelFormat};

/// An image to encode.
struct Image {
    width: u32,
    height: u32,
    pixel: PixelFormat,
}

impl Image {
    fn new(width: u32, height: u32, pixel: PixelFormat) -> Self {
        Self { width, height, pixel }
    }

    fn row_bytes(&self) -> usize {
        self.width as usize * self.pixel.bytes_per_pixel()
    }

    fn byte_len(&self) -> usize {
        self.row_bytes() * self.height as usize
    }
}

/// Compress indices: literal codes alone, with the table cleared before a code
/// would need another bit.
fn compress(indices: &[u8], width: u32) -> Vec<u8> {
    let clear = 1_u32 << width;
    let mut codes = vec![clear];
    for (k, &index) in indices.iter().enumerate() {
        if k > 0 && k as u32 % (clear - 2) == 0 {
            codes.push(clear);
        }
        codes.push(u32::from(index));
    }
    codes.push(clear + 1);
    let (mut out, mut buffer, mut filled) = (Vec::new(), 0_u32, 0);
    for code in codes {
        buffer |= code << filled;
        filled += width + 1;
        while filled >= 8 {
            out.push(buffer as u8);
            buffer >>= 8;
            filled -= 8;
        }
    }
    if filled > 0 {
        out.push(buffer as u8);
    }
    out
}

/// Expand compressed indices.
fn expand(bytes: &[u8], width: u32, limit: usize) -> Vec<u8> {
    let clear = 1_usize << width;
    let mut table: Vec<Vec<u8>> = Vec::new();
    let mut size = width + 1;
    let mut last: Option<Vec<u8>> = None;
    let (mut out, mut at) = (Vec::new(), 0_usize);
    loop {
        let mut code = 0_usize;
        for bit in 0..size {
            let Some(byte) = bytes.get(at / 8) else {
                return out;
            };
            code |= usize::from(byte >> (at % 8) & 1) << bit;
            at += 1;
        }
        if code == clear {
            table = (0..clear + 2).map(|k| vec![k as u8]).collect();
            size = width + 1;
            last = None;
            continue;
        }
        if code == clear + 1 || out.len() >= limit {
            return out;
        }
        let entry = match (table.get(code), &last) {
            (Some(entry), _) => entry.clone(),
            (None, Some(last)) => {
                let mut entry = last.clone();
                entry.push(last[0]);
                entry
            }
            (None, None) => return out,
        };
        if let Some(mut grown) = last {
            grown.push(entry[0]);
            if table.len() < 4096 {
                table.push(grown);
            }
            if table.len() == 1 << size && size < 12 {
                size += 1;
            }
        }
        out.extend_from_slice(&entry);
        last = Some(entry);
    }
}

fn finish(encoder: &mut GifEncoder) -> Outcome<Vec<u8>> {
    let image = encoder.quantized()?;
    encoder.release();
    Ok(image.assemble(&compress(&image.indices, image.minimum_width())))
}

fn encode(desc: &Image, raster: &[u8], encoder: GifEncoder) -> Outcome<Vec<u8>> {
    let mut encoder = encoder;
    encoder.write_header(desc.width, desc.height, desc.pixel)?;
    for row in raster.chunks_exact(desc.row_bytes()) {
        encoder.write_row(row)?;
    }
    finish(&mut encoder)
}

fn decode(bytes: &[u8]) -> Outcome<(Image, Vec<u8>)> {
    let mut decoder = GifDecoder::new(bytes)?;
    let screen = decoder.screen();
    let image = Image::new(screen.width.into(), screen.height.into(), PixelFormat::Rgba8);
    if let Some(coded) = decoder.first_image()? {
        let indices = expand(&coded.compressed, u32::from(coded.minimum_width), coded.pixels() as usize);
        decoder.draw(&coded, &indices);
    }
    let mut raster = Vec::new();
    let mut row = vec![0_u8; image.row_bytes()];
    for _ in 0..image.height {
        decoder.read_row(&mut row)?;
        raster.extend_from_slice(&row);
    }
    Ok((image, raster))
}

/// An image using at most `colours` distinct values, so it can round-trip
/// through a palette exactly.
fn flat_art(width: u32, height: u32, colours: usize) -> (Image, Vec<u8>) {
    let descriptor = Image::new(width, height, PixelFormat::Rgb8);
    let mut bytes = Vec::new();
    for i in 0..(width * height) as usize {
        // Spread `colours` distinct values across the full range without
        // leaving u8, so the fixture stays legal for any palette size.
        let n = (i % colours) as u32;
        let spread = (n * 255 / colours.max(1) as u32) as u8;
        bytes.extend_from_slice(&[spread, 255 - spread, spread / 2]);
    }
    (descriptor, bytes)
}

#[test]
fn flat_colour_art_round_trips_exactly() {
    // The case GIF is still genuinely used for. Fewer distinct colours
    // than the palette holds means the encoding must be lossless.
    for colours in [2_usize, 5, 16, 200] {
        let (descriptor, raster) = flat_art(23, 17, colours);
        let bytes = encode(&descriptor, &raster, GifEncoder::new())
            .unwrap_or_else(|e| panic!("{colours} colours: {}", e.to_string()));
        let (out_desc, decoded) = decode(&bytes).unwrap();
        assert_eq!((out_desc.width, out_desc.height), (23, 17));
        assert_eq!(out_desc.pixel, PixelFormat::Rgba8);

        for (index, (want, got)) in raster
            .chunks_exact(3)
            .zip(decoded.chunks_exact(4))
            .enumerate()
        {
            assert_eq!(&got[..3], want, "{colours} colours: pixel {index} changed");
            assert_eq!(got[3], 255, "pixel {index} lost opacity");
        }
    }
}

#[test]
fn the_output_starts_with_a_signature_and_ends_with_a_trailer() {
    let (descriptor, raster) = flat_art(4, 4, 4);
    let bytes = encode(&descriptor, &raster, GifEncoder::new()).unwrap();
    assert_eq!(&bytes[..6], b"GIF89a");
    assert_eq!(bytes.last().copied(), Some(TRAILER));
}

#[test]
fn a_photographic_image_round_trips_approximately() {
    // 256 colours cannot represent a gradient exactly, so the check is
    // that it is close rather than equal.
    let descriptor = Image::new(64, 64, PixelFormat::Rgb8);
    let mut raster = Vec::new();
    for y in 0..64_u32 {
        for x in 0..64_u32 {
            raster.extend_from_slice(&[(x * 4) as u8, (y * 4) as u8, ((x + y) * 2) as u8]);
        }
    }
    let bytes = encode(&descriptor, &raster, GifEncoder::new()).unwrap();
    let (_, decoded) = decode(&bytes).unwrap();

    let mut total = 0_u64;
    for (want, got) in raster.chunks_exact(3).zip(decoded.chunks_exact(4)) {
        for channel in 0..3 {
            total += u64::from(want[channel].abs_diff(got[channel]));
        }
    }
    let mean = total as f64 / (raster.len() as f64);
    assert!(mean < 8.0, "mean per-channel error was {mean}");
}

#[test]
fn every_input_format_encodes() {
    for format in [
        PixelFormat::Gray8,
        PixelFormat::GrayA8,
        PixelFormat::Rgb8,
        PixelFormat::Rgba8,
    ] {
        let descriptor = Image::new(8, 8, format);
        let raster = vec![128_u8; descriptor.byte_len()];
        let bytes = encode(&descriptor, &raster, GifEncoder::new())
            .unwrap_or_else(|e| panic!("{format:?}: {}", e.to_string()));
        let (out_desc, _) = decode(&bytes).unwrap();
        assert_eq!((out_desc.width, out_desc.height), (8, 8), "{format:?}");
    }
}

#[test]
fn a_wide_format_is_unsupported_not_silently_narrowed() {
    let descriptor = Image::new(4, 4, PixelFormat::Rgb16);
    let mut encoder = GifEncoder::new();
    let error = encoder.write_header(descriptor.width, descriptor.height, descriptor.pixel).unwrap_err();
    assert!(error.to_string().contains("8-bit"), "{}", error.to_string());
    assert!(finish(&mut encoder).is_err(), "nothing should be written for a rejected format");
}

#[test]
fn a_short_image_is_an_error_not_a_truncated_gif() {
    let (descriptor, _) = flat_art(4, 4, 4);
    let mut encoder = GifEncoder::new();
    encoder.write_header(descriptor.width, descriptor.height, descriptor.pixel).unwrap();
    encoder.write_row(&[0; 12]).unwrap();
    assert!(finish(&mut encoder).is_err());
}

#[test]
fn extra_rows_and_wrong_lengths_are_errors() {
    let descriptor = Image::new(4, 1, PixelFormat::Rgb8);
    let mut encoder = GifEncoder::new();
    encoder.write_header(descriptor.width, descriptor.height, descriptor.pixel).unwrap();
    assert!(encoder.write_row(&[0; 11]).is_err(), "short row");
    assert!(encoder.write_row(&[0; 13]).is_err(), "long row");
    encoder.write_row(&[0; 12]).unwrap();
    assert!(encoder.write_row(&[0; 12]).is_err(), "extra row");
}

#[test]
fn a_palette_size_outside_the_legal_range_is_rejected() {
    assert!(GifEncoder::new().with_colours(1).is_err());
    assert!(GifEncoder::new().with_colours(257).is_err());
    assert!(GifEncoder::new().with_colours(2).is_ok());
    assert!(GifEncoder::new().with_colours(256).is_ok());
}

#[test]
fn options_map_quality_onto_palette_size() {
    assert_eq!(
        GifEncoder::from_options(&EncodeOptions { quality: 80 }).colours(),
        204
    );
    let lowest = EncodeOptions { quality: 1 };
    assert_eq!(GifEncoder::from_options(&lowest).colours(), 2);
    let highest = EncodeOptions { quality: 100 };
    assert_eq!(GifEncoder::from_options(&highest).colours(), 256);
}

#[test]
fn a_two_colour_image_uses_a_legal_code_width() {
    // LZW needs a minimum code width of 2 even for a 1-bit palette,
    // because width 1 has no room for both the clear and end codes. This
    // is the smallest image that exercises that clamp.
    let (descriptor, raster) = flat_art(3, 3, 2);
    let bytes = encode(
        &descriptor,
        &raster,
        GifEncoder::new().with_colours(2).unwrap(),
    )
    .unwrap();
    let (_, decoded) = decode(&bytes).unwrap();
    assert_eq!(decoded.len(), 3 * 3 * 4);
}

#[test]
fn encoding_is_deterministic() {
    let descriptor = Image::new(40, 30, PixelFormat::Rgb8);
    let raster: Vec<u8> = (0..descriptor.byte_len())
        .map(|i| ((i * 31) % 251) as u8)
        .collect();
    let first = encode(&descriptor, &raster, GifEncoder::new()).unwrap();
    for _ in 0..4 {
        let again = encode(&descriptor, &raster, GifEncoder::new()).unwrap();
        assert_eq!(again, first, "GIF encoding is not deterministic");
    }
}

#[test]
fn a_single_pixel_image_round_trips() {
    let descriptor = Image::new(1, 1, PixelFormat::Rgb8);
    let raster = vec![9_u8, 8, 7];
    let bytes = encode(&descriptor, &raster, GifEncoder::new()).unwrap();
    let (_, decoded) = decode(&bytes).unwrap();
    assert_eq!(&decoded[..3], [9, 8, 7]);
}

#[test]
fn probe_detects_gif_by_magic_bytes_only() {
    assert!(probe(b"GIF89a..."), "89a");
    assert!(probe(b"GIF87a..."), "87a");
    assert!(!probe(b"GIF88a..."), "a version that does not exist");
    assert!(!probe(b"GIF"), "shorter than the magic");
    assert!(!probe(b""), "empty");
    assert!(!probe(&[0x89, b'P', b'N', b'G', 13, 10, 26, 10]), "a PNG");
}

#[test]
fn the_registry_entry_reports_the_format() {
    assert_eq!(GifCodec.format(), Format::Gif);
    assert_eq!(GifCodec.magic_len(), 6);
    assert!(GifCodec.probe(b"GIF89a"));
    assert!(!GifCodec.probe(b"GIF89"));
}

/// A stream of the given blocks, with a global table of four colours.
fn stream(width: u16, height: u16, blocks: &[Vec<u8>]) -> Vec<u8> {
    let mut out = b"GIF89a".to_vec();
    out.extend_from_slice(&width.to_le_bytes());
    out.extend_from_slice(&height.to_le_bytes());
    out.extend_from_slice(&[0x81, 0, 0]);
    for colour in COLOURS {
        out.extend_from_slice(&colour);
    }
    for block in blocks {
        out.extend_from_slice(block);
    }
    out.push(TRAILER);
    out
}

const COLOURS: [[u8; 3]; 4] = [[10, 20, 30], [200, 0, 0], [0, 200, 0], [0, 0, 200]];

fn control(disposal: u8, delay: u16, transparent: Option<u8>) -> Vec<u8> {
    let mut out = vec![0x21, 0xF9, 4, (disposal << 2) | u8::from(transparent.is_some())];
    out.extend_from_slice(&delay.to_le_bytes());
    out.extend_from_slice(&[transparent.unwrap_or(0), 0]);
    out
}

fn image(area: [u16; 4], packed: u8, indices: &[u8]) -> Vec<u8> {
    let mut out = vec![0x2C];
    for value in area {
        out.extend_from_slice(&value.to_le_bytes());
    }
    out.extend_from_slice(&[packed, 2]);
    write_sub_blocks(&mut out, &compress(indices, 2));
    out
}

fn frames(bytes: &[u8]) -> Outcome<Vec<Frame>> {
    let mut decoder = GifDecoder::new(bytes)?;
    let mut out = Vec::new();
    while let Some(coded) = decoder.next_image()? {
        let indices = expand(&coded.compressed, u32::from(coded.minimum_width), coded.pixels() as usize);
        out.push(decoder.draw(&coded, &indices));
    }
    Ok(out)
}

fn pixel(frame: &Frame, x: u32, y: u32) -> [u8; 4] {
    let at = 4 * (y * frame.width + x) as usize;
    frame.pixels[at..at + 4].try_into().unwrap()
}

fn opaque(index: usize) -> [u8; 4] {
    [COLOURS[index][0], COLOURS[index][1], COLOURS[index][2], 255]
}

#[test]
fn an_interlaced_frame_is_the_same_picture() {
    let indices: Vec<u8> = (0..30).map(|k| (k * 7 % 4) as u8).collect();
    let order = [0, 8, 4, 2, 6, 1, 3, 5, 7, 9];
    let mut stored = Vec::new();
    for row in order {
        stored.extend_from_slice(&indices[3 * row..3 * row + 3]);
    }
    let plain = frames(&stream(3, 10, &[image([0, 0, 3, 10], 0, &indices)])).unwrap();
    let woven = frames(&stream(3, 10, &[image([0, 0, 3, 10], 0x40, &stored)])).unwrap();
    assert_eq!(plain[0].pixels, woven[0].pixels);
}

#[test]
fn a_frame_disposed_to_what_was_before_is_undone() {
    let bytes = stream(
        2,
        2,
        &[
            image([0, 0, 2, 2], 0, &[1, 1, 1, 1]),
            control(3, 7, None),
            image([1, 0, 1, 2], 0, &[2, 2]),
            image([0, 0, 1, 1], 0, &[3]),
        ],
    );
    let all = frames(&bytes).unwrap();
    assert_eq!(all.len(), 3);
    assert_eq!(all[1].delay_centiseconds, 7);
    assert_eq!(all[1].disposal, Disposal::Previous);
    assert_eq!(pixel(&all[1], 1, 1), opaque(2));
    assert_eq!(pixel(&all[2], 1, 1), opaque(1));
    assert_eq!(pixel(&all[2], 0, 0), opaque(3));
}

#[test]
fn a_transparent_index_leaves_the_canvas() {
    let bytes = stream(
        2,
        1,
        &[image([0, 0, 2, 1], 0, &[1, 2]), control(1, 0, Some(3)), image([0, 0, 2, 1], 0, &[3, 0])],
    );
    let all = frames(&bytes).unwrap();
    assert_eq!(pixel(&all[1], 0, 0), opaque(1));
    assert_eq!(pixel(&all[1], 1, 0), opaque(0));
}

#[test]
fn a_frame_past_the_canvas_is_clipped() {
    let all = frames(&stream(2, 2, &[image([1, 1, 3, 3], 0, &[1; 9])])).unwrap();
    assert_eq!(pixel(&all[0], 1, 1), opaque(1));
    assert_ne!(pixel(&all[0], 0, 0), opaque(1));
}

#[test]
fn other_extensions_are_passed_over() {
    let comment = vec![0x21, 0xFE, 2, b'h', b'i', 0];
    let all = frames(&stream(1, 1, &[comment, image([0, 0, 1, 1], 0, &[2])])).unwrap();
    assert_eq!(pixel(&all[0], 0, 0), opaque(2));
}

#[test]
fn broken_streams_are_malformed() {
    let code = |bytes: &[u8]| frames(bytes).err().map(|e| e.code());
    assert_eq!(code(b"GIF8"), Some(ErrorCode::Malformed));
    assert_eq!(code(b"GIF89a\0\0\x01\0\0\0\0"), Some(ErrorCode::Malformed));
    let good = stream(1, 1, &[image([0, 0, 1, 1], 0, &[2])]);
    for cut in 0..good.len() {
        assert_eq!(code(&good[..cut]), Some(ErrorCode::Malformed), "cut at {cut}");
    }
    // A block of no known kind.
    assert_eq!(code(&stream(1, 1, &[vec![0x99]])), Some(ErrorCode::Malformed));
    // A stream of no frames has no first row.
    let empty = stream(1, 1, &[]);
    let mut decoder = GifDecoder::new(&empty).unwrap();
    assert!(decoder.next_image().unwrap().is_none());
    let mut decoder = GifDecoder::new(&empty).unwrap();
    assert_eq!(decoder.first_image().unwrap_err().code(), ErrorCode::Malformed);
}

#[test]
fn rows_are_asked_for_one_at_a_time() {
    let bytes = stream(2, 1, &[image([0, 0, 2, 1], 0, &[1, 2])]);
    let mut decoder = GifDecoder::new(&bytes).unwrap();
    assert!(!decoder.is_started());
    let coded = decoder.first_image().unwrap().unwrap();
    decoder.draw(&coded, &[1, 2]);
    assert!(decoder.is_started());
    assert_eq!(decoder.read_row(&mut [0; 7]).unwrap_err().code(), ErrorCode::InvalidArgument);
    let mut row = [0; 8];
    decoder.read_row(&mut row).unwrap();
    assert_eq!(row, [200, 0, 0, 255, 0, 200, 0, 255]);
    assert_eq!(decoder.read_row(&mut row).unwrap_err().code(), ErrorCode::InvalidArgument);
    assert!(decoder.first_image().unwrap().is_none());
}

#[test]
fn an_image_that_does_not_fit_the_format_is_refused() {
    let mut encoder = GifEncoder::new();
    assert!(encoder.write_header(70_000, 1, PixelFormat::Rgb8).is_err());
    assert!(encoder.write_row(&[0; 3]).is_err());
}

#[test]
fn alpha_is_laid_over_black_and_grey_is_spread() {
    let mut out = Vec::new();
    append_as_rgb(&[7, 200], PixelFormat::GrayA8, &mut out).unwrap();
    append_as_rgb(&[200, 100, 50, 128], PixelFormat::Rgba8, &mut out).unwrap();
    append_as_rgb(&[9], PixelFormat::Gray8, &mut out).unwrap();
    assert_eq!(out, [5, 5, 5, 100, 50, 25, 9, 9, 9]);
    assert_eq!(append_as_rgb(&[0, 0], PixelFormat::Gray16, &mut out).unwrap_err().code(), ErrorCode::Unsupported);
}

#[test]
fn a_stream_is_taken_up_behind_what_failed() {
    let empty = vec![0x2C, 0, 0, 0, 0, 0, 0, 1, 0, 0];
    let bytes = stream(1, 1, &[vec![0x99], empty, image([0, 0, 1, 1], 0, &[2])]);
    let mut decoder = GifDecoder::new(&bytes).unwrap();
    // An unknown label, and then an image of no pixels.
    assert_eq!(decoder.next_image().unwrap_err().code(), ErrorCode::Malformed);
    assert_eq!(decoder.next_image().unwrap_err().code(), ErrorCode::Malformed);
    assert_eq!(decoder.next_image().unwrap().unwrap().image.width, 1);
    assert!(decoder.next_image().unwrap().is_none());
}

#[test]
fn a_stream_that_is_cut_short_is_refused() {
    let blocks = [control(2, 5, Some(1)), image([0, 0, 3, 2], 0, &[0, 1, 2, 3, 0, 1]), image([1, 0, 1, 1], 0, &[3])];
    let bytes = stream(3, 2, &blocks);
    assert_eq!(frames(&bytes).unwrap().len(), 2);
    for cut in 0..bytes.len() {
        assert!(frames(&bytes[..cut]).is_err(), "{cut}");
    }
    let mut longer = bytes.clone();
    longer.extend_from_slice(b"more");
    let (whole, followed) = (frames(&bytes).unwrap(), frames(&longer).unwrap());
    assert_eq!(followed.len(), whole.len());
    assert!(whole.iter().zip(&followed).all(|(a, b)| a.pixels == b.pixels));
}

#[test]
fn a_refused_stream_says_why() {
    let said = |bytes: &[u8]| frames(bytes).err().unwrap().to_string();
    assert_eq!(said(b"GIF88a\x01\0\x01\0\0\0\0"), "signature is neither GIF87a nor GIF89a");
    assert_eq!(said(b"GIF89a\x05\0\0\0\0\0\0"), "logical screen is 5x0");
    assert_eq!(said(&stream(1, 1, &[vec![0x99]])), "unknown block label 0x99");
    assert_eq!(said(&stream(1, 1, &[vec![0x0A]])), "unknown block label 0x0a");
    assert_eq!(said(&stream(1, 1, &[vec![0x2C, 0, 0, 0, 0, 0, 0, 1, 0, 0]])), "frame is 0x1");
    let bare = b"GIF89a\x01\0\x01\0\0\0\0\x2C\0\0\0\0\x01\0\x01\0\0\x02\0";
    assert_eq!(said(bare), "frame has neither a local nor a global colour table");
    let mut long = vec![0x21, 0xF9];
    for _ in 0..17 {
        long.push(255);
        long.extend_from_slice(&[0; 255]);
    }
    long.push(0);
    assert_eq!(said(&stream(1, 1, &[long])), "sub-block chain exceeds the 4096 byte limit");
    let empty = stream(1, 1, &[]);
    let mut decoder = GifDecoder::new(&empty).unwrap();
    assert_eq!(decoder.first_image().unwrap_err().to_string(), "stream contains no frames");
    let bytes = stream(2, 1, &[image([0, 0, 2, 1], 0, &[1, 2])]);
    let mut decoder = GifDecoder::new(&bytes).unwrap();
    let coded = decoder.first_image().unwrap().unwrap();
    decoder.draw(&coded, &[1, 2]);
    assert_eq!(decoder.read_row(&mut [0; 7]).unwrap_err().to_string(), "row buffer is 7 bytes, expected 8");
    decoder.read_row(&mut [0; 8]).unwrap();
    assert_eq!(decoder.read_row(&mut [0; 8]).unwrap_err().to_string(), "all 1 rows have already been read");
}

#[test]
fn a_refused_encoding_says_why() {
    assert_eq!(
        GifEncoder::new().with_colours(257).unwrap_err().to_string(),
        "palette size must be in 2..=256, got 257"
    );
    let mut encoder = GifEncoder::new();
    assert_eq!(encoder.write_row(&[]).unwrap_err().to_string(), "write_row called before write_header");
    assert_eq!(encoder.quantized().unwrap_err().to_string(), "finish called before write_header");
    // The dimensions are looked at before the format.
    assert_eq!(
        encoder.write_header(70_000, 3, PixelFormat::Rgb16).unwrap_err().to_string(),
        "GIF dimensions are 16-bit; 70000x3 does not fit"
    );
    assert_eq!(
        encoder.write_header(2, 2, PixelFormat::Rgb16).unwrap_err().to_string(),
        "GIF encoding needs an 8-bit format; got Rgb16. Convert first."
    );
    assert!(encoder.check_header(2, 2).is_ok());
    encoder.write_header(2, 2, PixelFormat::Rgb8).unwrap();
    let again = encoder.check_header(70_000, 2).unwrap_err();
    assert_eq!(again.code(), ErrorCode::InvalidArgument);
    assert_eq!(again.to_string(), "write_header called more than once");
    assert_eq!(encoder.write_row(&[0; 5]).unwrap_err().to_string(), "row is 5 bytes, expected 6");
    encoder.write_row(&[0; 6]).unwrap();
    assert_eq!(
        encoder.quantized().unwrap_err().to_string(),
        "1 of 2 rows written; a partial image is never emitted"
    );
    encoder.write_row(&[0; 6]).unwrap();
    assert_eq!(encoder.write_row(&[0; 6]).unwrap_err().to_string(), "more than 2 rows written");
}

#[test]
fn a_stream_in_pieces_is_read_as_in_one() {
    let blocks = [control(2, 5, Some(1)), image([0, 0, 3, 2], 0, &[0, 1, 2, 3, 0, 1]), image([1, 0, 1, 1], 0, &[3])];
    let bytes = stream(3, 2, &blocks);
    let whole = frames(&bytes).unwrap();
    let start = 13 + 3 * usize::from(GifDecoder::new(&bytes).unwrap().screen().global_table_size as u16);
    let mut decoder = GifDecoder::new(&bytes[..start]).unwrap();
    let (mut at, mut seen) = (start, Vec::new());
    loop {
        while decoder.wants_more() {
            decoder.feed(&bytes[at..at + 1]);
            at += 1;
        }
        let Some(coded) = decoder.next_image().unwrap() else {
            break;
        };
        let indices = expand(&coded.compressed, u32::from(coded.minimum_width), coded.pixels() as usize);
        seen.push(decoder.draw(&coded, &indices));
    }
    assert_eq!(at, bytes.len());
    assert_eq!(seen.len(), whole.len());
    assert!(seen.iter().zip(&whole).all(|(a, b)| a.pixels == b.pixels));
    // What is wrong is not for want of bytes.
    let mut broken = stream(1, 1, &[vec![0x99]]);
    broken.extend_from_slice(b"more");
    assert!(!GifDecoder::new(&broken).unwrap().wants_more());
}
