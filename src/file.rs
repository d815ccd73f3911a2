use vstd::prelude::*;

use crate::error::TgaError;
use crate::header::{header_bytes, lemma_header_round_trip, parse_header, TGAHeader, HEADER_LEN};
use crate::image::{flip_h_view, flip_v_view, view_wf, ImageView, TGAImage};
use crate::rle::{
    decode_from,
    decode_rle,
    lemma_decode_encode,
    lemma_decode_len,
    push_slice,
    rle_encode,
};

verus! {

/// Image type of uncompressed true-color data.
pub const TYPE_RAW: u8 = 2;

/// Image type of run-length encoded true-color data.
pub const TYPE_RLE: u8 = 10;

/// Image descriptor of a file whose pixels start at the top-left corner.
pub const TOP_LEFT: u8 = 0x20;

/// The TGA 2.0 footer signature, "TRUEVISION-XFILE." and a zero byte.
pub open spec fn footer() -> Seq<u8> {
    seq![84u8, 82, 85, 69, 86, 73, 83, 73, 79, 78, 45, 88, 70, 73, 76, 69, 46, 0]
}

/// The zeroed developer and extension areas, four bytes each, then the footer.
pub open spec fn trailer() -> Seq<u8> {
    Seq::new(8, |i: int| 0u8) + footer()
}

/// The header written when saving an image.
pub open spec fn save_header(v: ImageView, rle: bool) -> TGAHeader {
    TGAHeader {
        id_length: 0,
        color_map_type: 0,
        image_type: if rle {
            10u8
        } else {
            2u8
        },
        color_map_origin: 0,
        color_map_length: 0,
        color_map_depth: 0,
        x_origin: 0,
        y_origin: 0,
        width: v.width as u16,
        height: v.height as u16,
        bits_per_pixel: (v.bpp * 8) as u8,
        image_descriptor: 0x20,
    }
}

/// The pixel body written when saving: RLE packets, or the bytes verbatim.
pub open spec fn save_body(v: ImageView, rle: bool) -> Seq<u8> {
    if rle {
        rle_encode(v.data, v.bpp, v.width * v.height)
    } else {
        v.data
    }
}

/// The complete file that saving an image writes.
pub open spec fn tga_file_bytes(v: ImageView, rle: bool) -> Seq<u8> {
    header_bytes(save_header(v, rle)) + save_body(v, rle) + trailer()
}

/// Bytes per pixel named by a header.
pub open spec fn header_bpp(h: TGAHeader) -> nat {
    (h.bits_per_pixel / 8) as nat
}

/// Bytes of pixel data a header calls for.
pub open spec fn header_data_len(h: TGAHeader) -> nat {
    h.width as nat * h.height as nat * header_bpp(h)
}

/// The pixel bytes of the body after the header of `b`, as stored in the file.
pub open spec fn decode_body(b: Seq<u8>, h: TGAHeader) -> Result<Seq<u8>, TgaError> {
    if h.image_type == 2 {
        if b.len() < 18 + header_data_len(h) {
            Err(TgaError::Truncated)
        } else {
            Ok(b.subrange(18, 18 + header_data_len(h) as int))
        }
    } else {
        decode_from(b, 18, header_bpp(h), h.width as nat * h.height as nat)
    }
}

/// The image brought to a top-left origin, from the origin corner that bits
/// 4 and 5 of the descriptor name: bottom-left, bottom-right, top-left, top-right.
pub open spec fn orient(v: ImageView, descriptor: u8) -> ImageView {
    let corner = (descriptor / 16) % 4;
    if corner == 0 {
        flip_v_view(v)
    } else if corner == 1 {
        flip_h_view(flip_v_view(v))
    } else if corner == 2 {
        v
    } else {
        flip_h_view(v)
    }
}

/// What loading the file `b` gives.
pub open spec fn parse_tga(b: Seq<u8>) -> Result<ImageView, TgaError> {
    if b.len() < 18 {
        Err(TgaError::Truncated)
    } else {
        let h = parse_header(b);
        if h.image_type != 2 && h.image_type != 10 {
            Err(TgaError::UnsupportedImageType)
        } else if h.bits_per_pixel != 24 && h.bits_per_pixel != 32 {
            Err(TgaError::UnsupportedPixelDepth)
        } else if header_data_len(h) > usize::MAX {
            Err(TgaError::TooLarge)
        } else {
            match decode_body(b, h) {
                Ok(d) => Ok(
                    orient(
                        ImageView {
                            width: h.width as nat,
                            height: h.height as nat,
                            bpp: header_bpp(h),
                            data: d,
                        },
                        h.image_descriptor,
                    ),
                ),
                Err(e) => Err(e),
            }
        }
    }
}

/// Saving an image, raw or RLE, and loading the file back gives the same
/// dimensions, bytes per pixel and pixel bytes, for every image whose width
/// and height fit the header's 16-bit fields.
pub proof fn lemma_save_load(v: ImageView, rle: bool)
    requires
        view_wf(v),
        v.width <= 0xFFFF,
        v.height <= 0xFFFF,
    ensures
        parse_tga(tga_file_bytes(v, rle)) == Ok::<ImageView, TgaError>(v),
{
    let h = save_header(v, rle);
    let body = save_body(v, rle);
    let b = tga_file_bytes(v, rle);
    assert(b =~= header_bytes(h) + (body + trailer()));
    lemma_header_round_trip(h, body + trailer());
    let hd = parse_header(b);
    assert(hd == h);
    assert(hd.width as nat == v.width);
    assert(hd.height as nat == v.height);
    assert(header_bpp(hd) == v.bpp);
    let npx = v.width * v.height;
    assert(header_data_len(hd) == v.data.len());
    if rle {
        lemma_decode_encode(v.data, v.bpp, npx, 0, header_bytes(h), trailer());
        assert(v.data.subrange(0, (npx * v.bpp) as int) =~= v.data);
        assert(decode_body(b, hd) == Ok::<Seq<u8>, TgaError>(v.data));
    } else {
        assert(b.subrange(18, 18 + v.data.len() as int) =~= v.data);
        assert(decode_body(b, hd) == Ok::<Seq<u8>, TgaError>(v.data));
    }
    assert(hd.image_descriptor == 0x20);
    let back = ImageView { width: hd.width as nat, height: hd.height as nat, bpp: header_bpp(hd), data: v.data };
    assert(orient(back, hd.image_descriptor) == back);
    assert(back == v);
}

impl TGAImage {
    /// Reads the pixel body that follows the header in `input` and brings the
    /// image to a top-left origin.
    fn load_data(&mut self, input: &[u8], header: &TGAHeader) -> (r: Result<(), TgaError>)
        requires
            old(self).wf(),
            input@.len() >= 18,
            *header == parse_header(input@),
            header.image_type == 2 || header.image_type == 10,
            old(self)@.width == header.width,
            old(self)@.height == header.height,
            old(self)@.bpp == header_bpp(*header),
        ensures
            match decode_body(input@, *header) {
                Ok(d) => r is Ok && final(self).wf() && final(self)@ == orient(
                    ImageView { data: d, ..old(self)@ },
                    header.image_descriptor,
                ),
                Err(e) => r == Err::<(), TgaError>(e),
            },
    {
        let n = self.pixel_bytes().len();
        if header.image_type == TYPE_RAW {
            if input.len() - HEADER_LEN < n {
                return Err(TgaError::Truncated);
            }
            let mut data: Vec<u8> = Vec::with_capacity(n);
            push_slice(&mut data, input, HEADER_LEN, n);
            assert(data@ =~= input@.subrange(18, 18 + n));
            self.replace_data(data);
        } else {
            match self.load_rle_data(input) {
                Ok(()) => {},
                Err(e) => {
                    return Err(e);
                },
            }
        }
        let desc = header.image_descriptor;
        let corner = (desc >> 4) & 3;
        assert(corner == (desc / 16) % 4) by (bit_vector)
            requires
                corner == (desc >> 4) & 3,
        ;
        if corner == 0 {
            self.flip_vertically();
        } else if corner == 1 {
            self.flip_vertically();
            self.flip_horizontally();
        } else if corner == 3 {
            self.flip_horizontally();
        }
        Ok(())
    }

    /// Replaces the pixel bytes by the RLE packets that follow the header.
    fn load_rle_data(&mut self, input: &[u8]) -> (r: Result<(), TgaError>)
        requires
            old(self).wf(),
        ensures
            match decode_from(input@, 18, old(self)@.bpp, old(self)@.width * old(self)@.height) {
                Ok(d) => r is Ok && final(self).wf() && final(self)@ == (ImageView { data: d, ..old(self)@ }),
                Err(e) => r == Err::<(), TgaError>(e),
            },
    {
        let bpp = self.bytes_per_pixel();
        let w = self.width();
        let h = self.height();
        assert(w * h <= w * h * bpp) by (nonlinear_arith)
            requires
                bpp >= 1,
        ;
        match decode_rle(input, HEADER_LEN, bpp, w * h) {
            Ok(data) => {
                proof {
                    lemma_decode_len(input@, 18, bpp as nat, (w * h) as nat);
                }
                self.replace_data(data);
                Ok(())
            },
            Err(e) => Err(e),
        }
    }

    /// Turns the bytes of a TGA file into an image with a top-left origin.
    pub fn from_tga_bytes(input: &[u8]) -> (r: Result<TGAImage, TgaError>)
        ensures
            match r {
                Ok(img) => img.wf() && parse_tga(input@) == Ok::<ImageView, TgaError>(img@),
                Err(e) => parse_tga(input@) == Err::<ImageView, TgaError>(e),
            },
    {
        let header = match TGAHeader::from_reader(input) {
            Ok(h) => h,
            Err(e) => {
                return Err(e);
            },
        };
        if header.image_type != TYPE_RAW && header.image_type != TYPE_RLE {
            return Err(TgaError::UnsupportedImageType);
        }
        if header.bits_per_pixel != 24 && header.bits_per_pixel != 32 {
            return Err(TgaError::UnsupportedPixelDepth);
        }
        let bpp: usize = (header.bits_per_pixel / 8) as usize;
        let w = header.width as usize;
        let h = header.height as usize;
        let n = match w.checked_mul(h) {
            Some(wh) => wh.checked_mul(bpp),
            None => None,
        };
        if n.is_none() {
            assert(header_data_len(header) > usize::MAX) by (nonlinear_arith)
                requires
                    w * h > usize::MAX || w * h * bpp > usize::MAX,
                    bpp >= 1,
                    header_data_len(header) == w * h * bpp,
            ;
            return Err(TgaError::TooLarge);
        }
        let mut img = TGAImage::new(w, h, bpp);
        match img.load_data(input, &header) {
            Ok(()) => Ok(img),
            Err(e) => Err(e),
        }
    }

    /// The bytes of this image as a TGA file: header, body (RLE packets when
    /// `rle`, else the pixel bytes verbatim), zeroed developer and extension
    /// areas, and the footer. Width and height go into 16-bit header fields
    /// unchecked, so only dimensions up to 65535 survive a reload.
    pub fn to_tga_bytes(&self, rle: bool) -> (r: Vec<u8>)
        requires
            self.wf(),
        ensures
            r@ == tga_file_bytes(self@, rle),
    {
        let mut header = TGAHeader::new();
        header.bits_per_pixel = (self.bytes_per_pixel() * 8) as u8;
        header.width = #[verifier::truncate] (self.width() as u16);
        header.height = #[verifier::truncate] (self.height() as u16);
        header.image_type = if rle {
            TYPE_RLE
        } else {
            TYPE_RAW
        };
        header.image_descriptor = TOP_LEFT;
        let mut out = header.raw();
        let body = if rle {
            self.write_rle_data()
        } else {
            let d = self.pixel_bytes();
            let mut v: Vec<u8> = Vec::new();
            push_slice(&mut v, d, 0, d.len());
            assert(v@ =~= d@);
            v
        };
        let ghost before = out@;
        push_slice(&mut out, body.as_slice(), 0, body.len());
        assert(body@.subrange(0, body@.len() as int) =~= body@);
        let trailer_bytes: Vec<u8> = vec![
            0, 0, 0, 0, 0, 0, 0, 0,
            84, 82, 85, 69, 86, 73, 83, 73, 79, 78, 45, 88, 70, 73, 76, 69, 46, 0,
        ];
        let ghost mid = out@;
        push_slice(&mut out, trailer_bytes.as_slice(), 0, trailer_bytes.len());
        assert(trailer_bytes@ =~= trailer());
        assert(trailer_bytes@.subrange(0, 26) =~= trailer_bytes@);
        out
    }
}

} // verus!
