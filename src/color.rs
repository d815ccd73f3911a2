use vstd::prelude::*;

verus! {

/// Red, green and blue channels of a 3-byte pixel.
#[derive(Clone, Copy, Debug, PartialEq, Eq, Structural)]
pub struct TGAColorRGB {
    pub r: u8,
    pub g: u8,
    pub b: u8,
}

/// Red, green, blue and alpha channels of a 4-byte pixel.
#[derive(Clone, Copy, Debug, PartialEq, Eq, Structural)]
pub struct TGAColorRGBA {
    pub r: u8,
    pub g: u8,
    pub b: u8,
    pub a: u8,
}

/// A pixel value; its variant must match the bytes per pixel of the image it
/// is written to or read from.
#[derive(Clone, Copy, Debug, PartialEq, Eq, Structural)]
pub enum TGAColor {
    Rgb(TGAColorRGB),
    Rgba(TGAColorRGBA),
}

impl TGAColor {
    /// Number of bytes this color takes in a pixel buffer.
    pub open spec fn channels(self) -> nat {
        match self {
            TGAColor::Rgb(_) => 3,
            TGAColor::Rgba(_) => 4,
        }
    }

    pub fn rgb(r: u8, g: u8, b: u8) -> (c: Self)
        ensures
            c == TGAColor::Rgb(TGAColorRGB { r, g, b }),
    {
        TGAColor::Rgb(TGAColorRGB { r, g, b })
    }

    pub fn rgba(r: u8, g: u8, b: u8, a: u8) -> (c: Self)
        ensures
            c == TGAColor::Rgba(TGAColorRGBA { r, g, b, a }),
    {
        TGAColor::Rgba(TGAColorRGBA { r, g, b, a })
    }
}

/// The bytes of a color as stored in a pixel buffer: blue, green, red, then
/// alpha for RGBA.
pub open spec fn color_bytes(c: TGAColor) -> Seq<u8> {
    match c {
        TGAColor::Rgb(p) => seq![p.b, p.g, p.r],
        TGAColor::Rgba(p) => seq![p.b, p.g, p.r, p.a],
    }
}

/// The color stored in the bytes of one pixel: RGB for three bytes, RGBA for four.
pub open spec fn color_of(s: Seq<u8>) -> TGAColor {
    if s.len() == 3 {
        TGAColor::Rgb(TGAColorRGB { r: s[2], g: s[1], b: s[0] })
    } else {
        TGAColor::Rgba(TGAColorRGBA { r: s[2], g: s[1], b: s[0], a: s[3] })
    }
}

/// Reading back the bytes written for a color gives that color.
pub proof fn lemma_color_bytes_inverse(c: TGAColor)
    ensures
        color_bytes(c).len() == c.channels(),
        color_of(color_bytes(c)) == c,
{
}

} // verus!
