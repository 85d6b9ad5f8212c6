//! File formats and pixel formats.
use vstd::prelude::*;

verus! {

/// A file format.
#[derive(Debug, Clone, Copy, PartialEq, Eq, Structural)]
pub enum Format {
    /// AVIF still images.
    Avif,
    /// GIF images.
    Gif,
}

/// How a pixel is laid out in a row of bytes.
#[derive(Debug, Clone, Copy, PartialEq, Eq, Structural)]
pub enum PixelFormat {
    /// One byte of grey.
    Gray8,
    /// Two bytes of grey.
    Gray16,
    /// A byte of grey and a byte of alpha.
    GrayA8,
    /// A byte each of red, green and blue.
    Rgb8,
    /// Two bytes each of red, green and blue.
    Rgb16,
    /// A byte each of red, green, blue and alpha.
    Rgba8,
    /// Two bytes each of red, green, blue and alpha.
    Rgba16,
}

impl PixelFormat {
    /// The bytes of a pixel.
    pub open spec fn size(self) -> int {
        match self {
            PixelFormat::Gray8 => 1,
            PixelFormat::Gray16 => 2,
            PixelFormat::GrayA8 => 2,
            PixelFormat::Rgb8 => 3,
            PixelFormat::Rgb16 => 6,
            PixelFormat::Rgba8 => 4,
            PixelFormat::Rgba16 => 8,
        }
    }

    /// The name.
    pub open spec fn named(self) -> Seq<char> {
        match self {
            PixelFormat::Gray8 => "Gray8"@,
            PixelFormat::Gray16 => "Gray16"@,
            PixelFormat::GrayA8 => "GrayA8"@,
            PixelFormat::Rgb8 => "Rgb8"@,
            PixelFormat::Rgb16 => "Rgb16"@,
            PixelFormat::Rgba8 => "Rgba8"@,
            PixelFormat::Rgba16 => "Rgba16"@,
        }
    }

    /// The name.
    pub fn name(self) -> (r: &'static str)
        ensures
            r@ == self.named(),
    {
        match self {
            PixelFormat::Gray8 => "Gray8",
            PixelFormat::Gray16 => "Gray16",
            PixelFormat::GrayA8 => "GrayA8",
            PixelFormat::Rgb8 => "Rgb8",
            PixelFormat::Rgb16 => "Rgb16",
            PixelFormat::Rgba8 => "Rgba8",
            PixelFormat::Rgba16 => "Rgba16",
        }
    }

    /// The bytes of a pixel.
    pub fn bytes_per_pixel(self) -> (r: usize)
        ensures
            r == self.size(),
    {
        match self {
            PixelFormat::Gray8 => 1,
            PixelFormat::Gray16 => 2,
            PixelFormat::GrayA8 => 2,
            PixelFormat::Rgb8 => 3,
            PixelFormat::Rgb16 => 6,
            PixelFormat::Rgba8 => 4,
            PixelFormat::Rgba16 => 8,
        }
    }
}

/// A pixel has a sample for each of its channels: one of gray or three of colours, and one
/// more for alpha; the samples of a wide format are twice as long.
pub proof fn lemma_sizes_by_channels()
    ensures
        PixelFormat::Rgb8.size() == 3 * PixelFormat::Gray8.size(),
        PixelFormat::GrayA8.size() == PixelFormat::Gray8.size() + 1,
        PixelFormat::Rgba8.size() == PixelFormat::Rgb8.size() + 1,
        PixelFormat::Gray16.size() == 2 * PixelFormat::Gray8.size(),
        PixelFormat::Rgb16.size() == 2 * PixelFormat::Rgb8.size(),
        PixelFormat::Rgba16.size() == 2 * PixelFormat::Rgba8.size(),
        PixelFormat::Gray8.size() == 1,
{
}

} // verus!
