use vstd::prelude::*;

use crate::error::TgaError;

verus! {

/// Number of bytes in a serialized header.
pub const HEADER_LEN: usize = 18;

/// The fixed 18-byte TGA file header.
#[derive(Clone, Copy, Debug, PartialEq, Eq, Structural)]
pub struct TGAHeader {
    pub id_length: u8,
    pub color_map_type: u8,
    pub image_type: u8,
    pub color_map_origin: u16,
    pub color_map_length: u16,
    pub color_map_depth: u8,
    pub x_origin: u16,
    pub y_origin: u16,
    pub width: u16,
    pub height: u16,
    pub bits_per_pixel: u8,
    pub image_descriptor: u8,
}

/// Little-endian bytes of a 16-bit value.
pub open spec fn le_bytes(x: u16) -> Seq<u8> {
    seq![(x % 256) as u8, (x / 256) as u8]
}

/// The 16-bit value of two little-endian bytes.
pub open spec fn le_value(lo: u8, hi: u8) -> u16 {
    (hi as int * 256 + lo as int) as u16
}

/// The wire form of a header: fields in order, multi-byte fields little-endian.
pub open spec fn header_bytes(h: TGAHeader) -> Seq<u8> {
    seq![h.id_length, h.color_map_type, h.image_type] + le_bytes(h.color_map_origin) + le_bytes(
        h.color_map_length,
    ) + seq![h.color_map_depth] + le_bytes(h.x_origin) + le_bytes(h.y_origin) + le_bytes(h.width)
        + le_bytes(h.height) + seq![h.bits_per_pixel, h.image_descriptor]
}

/// The header held by the first 18 bytes of `b`.
pub open spec fn parse_header(b: Seq<u8>) -> TGAHeader
    recommends
        b.len() >= 18,
{
    TGAHeader {
        id_length: b[0],
        color_map_type: b[1],
        image_type: b[2],
        color_map_origin: le_value(b[3], b[4]),
        color_map_length: le_value(b[5], b[6]),
        color_map_depth: b[7],
        x_origin: le_value(b[8], b[9]),
        y_origin: le_value(b[10], b[11]),
        width: le_value(b[12], b[13]),
        height: le_value(b[14], b[15]),
        bits_per_pixel: b[16],
        image_descriptor: b[17],
    }
}

/// Parsing what `raw` wrote gives back the same header, whatever follows it.
pub proof fn lemma_header_round_trip(h: TGAHeader, rest: Seq<u8>)
    ensures
        header_bytes(h).len() == 18,
        (header_bytes(h) + rest).len() >= 18,
        parse_header(header_bytes(h) + rest) == h,
        (header_bytes(h) + rest).subrange(0, 18) == header_bytes(h),
{
    let b = header_bytes(h) + rest;
    assert(b.subrange(0, 18) =~= header_bytes(h));
}

fn push_le(v: &mut Vec<u8>, x: u16)
    ensures
        final(v)@ == old(v)@ + le_bytes(x),
{
    v.push((x % 256) as u8);
    v.push((x / 256) as u8);
    assert(final(v)@ =~= old(v)@ + le_bytes(x));
}

fn from_le(lo: u8, hi: u8) -> (r: u16)
    ensures
        r == le_value(lo, hi),
{
    (hi as u16) * 256 + lo as u16
}

impl TGAHeader {
    /// A header with every field zero.
    pub fn new() -> (r: Self)
        ensures
            r == (TGAHeader {
                id_length: 0,
                color_map_type: 0,
                image_type: 0,
                color_map_origin: 0,
                color_map_length: 0,
                color_map_depth: 0,
                x_origin: 0,
                y_origin: 0,
                width: 0,
                height: 0,
                bits_per_pixel: 0,
                image_descriptor: 0,
            }),
    {
        TGAHeader {
            id_length: 0,
            color_map_type: 0,
            image_type: 0,
            color_map_origin: 0,
            color_map_length: 0,
            color_map_depth: 0,
            x_origin: 0,
            y_origin: 0,
            width: 0,
            height: 0,
            bits_per_pixel: 0,
            image_descriptor: 0,
        }
    }

    /// Reads the header at the start of a byte stream; fails when fewer than
    /// 18 bytes are there.
    pub fn from_reader(input: &[u8]) -> (r: Result<Self, TgaError>)
        ensures
            input@.len() < 18 ==> r == Err::<Self, TgaError>(TgaError::Truncated),
            input@.len() >= 18 ==> r == Ok::<Self, TgaError>(parse_header(input@)),
    {
        if input.len() < HEADER_LEN {
            return Err(TgaError::Truncated);
        }
        let mut buf: Vec<u8> = Vec::new();
        let mut i: usize = 0;
        while i < HEADER_LEN
            invariant
                i <= 18,
                input@.len() >= 18,
                buf@ == input@.subrange(0, i as int),
            decreases 18 - i,
        {
            buf.push(input[i]);
            i = i + 1;
            assert(buf@ =~= input@.subrange(0, i as int));
        }
        Ok(TGAHeader::from_buf(&buf))
    }

    /// Parses exactly 18 header bytes.
    pub fn from_buf(buf: &Vec<u8>) -> (r: Self)
        requires
            buf@.len() == 18,
        ensures
            r == parse_header(buf@),
    {
        let mut header = TGAHeader::new();
        header.id_length = buf[0];
        header.color_map_type = buf[1];
        header.image_type = buf[2];
        header.color_map_origin = from_le(buf[3], buf[4]);
        header.color_map_length = from_le(buf[5], buf[6]);
        header.color_map_depth = buf[7];
        header.x_origin = from_le(buf[8], buf[9]);
        header.y_origin = from_le(buf[10], buf[11]);
        header.width = from_le(buf[12], buf[13]);
        header.height = from_le(buf[14], buf[15]);
        header.bits_per_pixel = buf[16];
        header.image_descriptor = buf[17];
        header
    }

    /// The 18 wire bytes of this header.
    pub fn raw(&self) -> (r: Vec<u8>)
        ensures
            r@ == header_bytes(*self),
    {
        let mut ret = Vec::new();
        ret.push(self.id_length);
        ret.push(self.color_map_type);
        ret.push(self.image_type);
        push_le(&mut ret, self.color_map_origin);
        push_le(&mut ret, self.color_map_length);
        ret.push(self.color_map_depth);
        push_le(&mut ret, self.x_origin);
        push_le(&mut ret, self.y_origin);
        push_le(&mut ret, self.width);
        push_le(&mut ret, self.height);
        ret.push(self.bits_per_pixel);
        ret.push(self.image_descriptor);
        assert(ret@ =~= header_bytes(*self));
        ret
    }
}

} // verus!
