# otf_pixels_codecs

Still-image codecs, verified with Verus.

- `src/av1` — the AV1 bitstream as far as a still picture needs it: bits, symbols and
  adapting distributions, the units of a stream, sequence and frame headers, intra
  prediction, inverse transforms, palettes, the tile decoder and the loop filter.
- `src/avif` — the AVIF container: boxes, items and their properties, what a file says
  about its primary image, and the decoder over it.
- `src/gif` — GIF: the blocks of a stream, the canvas that frames are drawn onto,
  median-cut palettes, dithering, and the encoder.
- `tests` — the library from outside.
- `app` — the engine's traits around the library: sources and sinks, limits, and LZW.

An error has a kind and words, numbers and codes of the input included; the contract of
a parser says which words come of which bytes.

Contracts speak of mathematical models: what a header says is a function of the bytes
it is read from, a plane is a sequence of samples, and a decoder is a state that its
methods move on. Laws that relate several functions stand beside them as public proof
functions, among them:

- bytes that are written as a chain of sub-blocks are read back;
- an image of few colours survives encoding and decoding unchanged;
- what is read of a GIF stream does not depend on what follows it, so one that is cut
  short is never taken for whole, and one that comes in pieces is read as it would be
  in one;
- a palette rises, and does not depend on the order of the pixels;
- a frame that is disposed of to what was before leaves the canvas as it was;
- a lossless frame is decoded whatever its data hold;
- no sample of a decoded frame exceeds its bit depth;
- a plane of one value has no edges for the loop filter to move;
- nothing that an AVIF file is described by is longer than the file.

Default distributions and quantiser steps are tables that the caller supplies, as
`av1::tile::Defaults`.

## What is refused

`av1::tile::decode_still` decodes lossless frames whole. Of a lossy frame it decodes
blocks that have no residual, and runs the loop filter; a block of a lossy frame that
has a residual is reported as unsupported, because coefficients are read for the
lossless 4 by 4 transform only. What follows the coefficients, `av1::transform::rebuild`
and `av1::transform_type`, covers every size and type. Lossy frames that use CDEF, loop
restoration, super-resolution or film grain, subsampled chroma, several tiles and intra
block copy are unsupported as well, and so are pictures that are not three channels of
eight bits.
