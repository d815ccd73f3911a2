use vstd::prelude::*;

verus! {

/// Why a TGA byte stream could not be turned into an image.
#[derive(Clone, Copy, Debug, PartialEq, Eq, Structural)]
pub enum TgaError {
    /// The stream ended before the header or the pixel body was complete.
    Truncated,
    /// The header names an image type other than raw (2) or RLE (10) true-color.
    UnsupportedImageType,
    /// The header names a pixel depth other than 24 or 32 bits.
    UnsupportedPixelDepth,
    /// An RLE packet would write past the end of the pixel buffer.
    PacketOverrun,
    /// The pixel data the header calls for does not fit in memory.
    TooLarge,
}

} // verus!
