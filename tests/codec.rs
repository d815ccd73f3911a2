use tgaimage::color::TGAColor;
use tgaimage::error::TgaError;
use tgaimage::header::TGAHeader;
use tgaimage::image::TGAImage;
use tgaimage::rle::decode_rle;

const FOOTER: &[u8] = b"TRUEVISION-XFILE.\0";

fn filled(w: usize, h: usize, c: TGAColor, bpp: usize) -> TGAImage {
    let mut img = TGAImage::new(w, h, bpp);
    for y in 0..h {
        for x in 0..w {
            assert!(img.set(x, y, &c));
        }
    }
    img
}

fn patterned(w: usize, h: usize, bpp: usize) -> TGAImage {
    let mut img = TGAImage::new(w, h, bpp);
    for y in 0..h {
        for x in 0..w {
            // runs of equal pixels mixed with distinct ones
            let v = if x % 5 < 3 { 7 } else { (x * 31 + y * 17) as u8 };
            let c = if bpp == 3 {
                TGAColor::rgb(v, y as u8, 3)
            } else {
                TGAColor::rgba(v, y as u8, 3, (x % 2) as u8)
            };
            assert!(img.set(x, y, &c));
        }
    }
    img
}

fn file_with_header(h: &TGAHeader, body: &[u8]) -> Vec<u8> {
    let mut out = h.raw();
    out.extend_from_slice(body);
    out
}

#[test]
fn rle_of_one_color_uses_full_runs() {
    let img = filled(150, 2, TGAColor::rgb(1, 2, 3), 3);
    let enc = img.write_rle_data();
    // 300 pixels: 128 + 128 + 44
    assert_eq!(enc, vec![0xFF, 3, 2, 1, 0xFF, 3, 2, 1, 0x80 + 43, 3, 2, 1]);
}

#[test]
fn rle_of_one_color_with_single_leftover_pixel() {
    let img = filled(129, 1, TGAColor::rgba(1, 2, 3, 4), 4);
    let enc = img.write_rle_data();
    assert_eq!(enc, vec![0xFF, 3, 2, 1, 4, 0x00, 3, 2, 1, 4]);
}

#[test]
fn rle_packet_count_is_ceiling_of_pixels_over_128() {
    for n in [1usize, 127, 128, 129, 256, 257, 1000] {
        let img = filled(n, 1, TGAColor::rgb(5, 5, 5), 3);
        let enc = img.write_rle_data();
        assert_eq!(enc.len(), ((n + 127) / 128) * 4);
    }
}

#[test]
fn rle_emits_single_pixel_raw_packets() {
    let mut img = TGAImage::new(4, 1, 3);
    img.set(0, 0, &TGAColor::rgb(1, 1, 1));
    img.set(1, 0, &TGAColor::rgb(2, 2, 2));
    img.set(2, 0, &TGAColor::rgb(2, 2, 2));
    img.set(3, 0, &TGAColor::rgb(3, 3, 3));
    assert_eq!(
        img.write_rle_data(),
        vec![0x00, 1, 1, 1, 0x81, 2, 2, 2, 0x00, 3, 3, 3]
    );
}

#[test]
fn decode_rle_expands_runs_and_raw_packets() {
    let input = [9, 0x82, 1, 2, 3, 0x01, 4, 5, 6, 7, 8, 9, 0xEE];
    assert_eq!(
        decode_rle(&input, 1, 3, 5),
        Ok(vec![1, 2, 3, 1, 2, 3, 1, 2, 3, 4, 5, 6, 7, 8, 9])
    );
}

#[test]
fn decode_rle_errors() {
    assert_eq!(decode_rle(&[0x80, 1, 2], 0, 3, 1), Err(TgaError::Truncated));
    assert_eq!(decode_rle(&[], 0, 3, 1), Err(TgaError::Truncated));
    assert_eq!(decode_rle(&[0x81, 1, 2, 3], 0, 3, 1), Err(TgaError::PacketOverrun));
    assert_eq!(decode_rle(&[0x01, 1, 2, 3], 0, 3, 1), Err(TgaError::PacketOverrun));
    assert_eq!(decode_rle(&[0x7F], 0, 4, 0), Ok(vec![]));
}

#[test]
fn saved_file_layout() {
    let img = filled(2, 1, TGAColor::rgb(10, 20, 30), 3);
    let bytes = img.to_tga_bytes(false);
    assert_eq!(bytes.len(), 18 + 6 + 8 + 18);
    let h = TGAHeader::from_reader(&bytes).unwrap();
    assert_eq!(h.image_type, 2);
    assert_eq!(h.bits_per_pixel, 24);
    assert_eq!(h.image_descriptor, 0x20);
    assert_eq!((h.width, h.height), (2, 1));
    assert_eq!(&bytes[18..24], &[30, 20, 10, 30, 20, 10]);
    assert_eq!(&bytes[24..32], &[0u8; 8]);
    assert_eq!(&bytes[32..], FOOTER);
    let rle = img.to_tga_bytes(true);
    assert_eq!(rle[2], 10);
    assert_eq!(&rle[18..22], &[0x81, 30, 20, 10]);
    assert_eq!(&rle[rle.len() - 18..], FOOTER);
}

#[test]
fn save_load_raw_round_trip() {
    for bpp in [3usize, 4] {
        let img = patterned(13, 7, bpp);
        let back = TGAImage::from_tga_bytes(&img.to_tga_bytes(false)).unwrap();
        assert_eq!(back.width(), 13);
        assert_eq!(back.height(), 7);
        assert_eq!(back.bytes_per_pixel(), bpp);
        assert_eq!(back.pixel_bytes(), img.pixel_bytes());
    }
}

#[test]
fn save_load_rle_round_trip() {
    for bpp in [3usize, 4] {
        let img = patterned(300, 3, bpp);
        let back = TGAImage::from_tga_bytes(&img.to_tga_bytes(true)).unwrap();
        assert_eq!(back.width(), 300);
        assert_eq!(back.height(), 3);
        assert_eq!(back.bytes_per_pixel(), bpp);
        assert_eq!(back.pixel_bytes(), img.pixel_bytes());
    }
}

#[test]
fn two_by_two_rgb_scenario() {
    let img = filled(2, 2, TGAColor::rgb(10, 20, 30), 3);
    let bytes = img.to_tga_bytes(false);
    let header = TGAHeader::from_reader(&bytes).unwrap();
    assert_eq!(header.width, 2);
    assert_eq!(header.height, 2);
    assert_eq!(header.bits_per_pixel, 24);
    let back = TGAImage::from_tga_bytes(&bytes).unwrap();
    for y in 0..2 {
        for x in 0..2 {
            assert_eq!(back.get(x, y), TGAColor::rgb(10, 20, 30));
        }
    }
}

#[test]
fn unsupported_image_type_is_rejected() {
    let mut h = TGAHeader::new();
    h.image_type = 3;
    h.width = 1;
    h.height = 1;
    h.bits_per_pixel = 24;
    let bytes = file_with_header(&h, &[1, 2, 3]);
    assert_eq!(TGAImage::from_tga_bytes(&bytes).err(), Some(TgaError::UnsupportedImageType));
}

#[test]
fn unsupported_depth_is_rejected() {
    let mut h = TGAHeader::new();
    h.image_type = 2;
    h.width = 1;
    h.height = 1;
    h.bits_per_pixel = 16;
    let bytes = file_with_header(&h, &[1, 2]);
    assert_eq!(TGAImage::from_tga_bytes(&bytes).err(), Some(TgaError::UnsupportedPixelDepth));
}

#[test]
fn short_files_are_truncated() {
    assert_eq!(TGAImage::from_tga_bytes(&[0u8; 10]).err(), Some(TgaError::Truncated));
    let mut h = TGAHeader::new();
    h.image_type = 2;
    h.width = 2;
    h.height = 1;
    h.bits_per_pixel = 24;
    let bytes = file_with_header(&h, &[1, 2, 3, 4, 5]);
    assert_eq!(TGAImage::from_tga_bytes(&bytes).err(), Some(TgaError::Truncated));
    h.image_type = 10;
    let bytes = file_with_header(&h, &[0x81, 1, 2]);
    assert_eq!(TGAImage::from_tga_bytes(&bytes).err(), Some(TgaError::Truncated));
}

#[test]
fn overrunning_packet_is_rejected() {
    let mut h = TGAHeader::new();
    h.image_type = 10;
    h.width = 1;
    h.height = 1;
    h.bits_per_pixel = 24;
    let bytes = file_with_header(&h, &[0x82, 1, 2, 3]);
    assert_eq!(TGAImage::from_tga_bytes(&bytes).err(), Some(TgaError::PacketOverrun));
}

#[test]
fn load_normalizes_origin_corner() {
    // 2x2 pixels stored as A B / C D
    let body = [1, 1, 1, 2, 2, 2, 3, 3, 3, 4, 4, 4];
    let px = |v: u8| TGAColor::rgb(v, v, v);
    let cases: [(u8, [u8; 4]); 4] = [
        (0x00, [3, 4, 1, 2]), // bottom-left: rows swapped
        (0x10, [4, 3, 2, 1]), // bottom-right: rows and columns swapped
        (0x20, [1, 2, 3, 4]), // top-left: as stored
        (0x30, [2, 1, 4, 3]), // top-right: columns swapped
    ];
    for (desc, want) in cases {
        let mut h = TGAHeader::new();
        h.image_type = 2;
        h.width = 2;
        h.height = 2;
        h.bits_per_pixel = 24;
        h.image_descriptor = desc | 0x08;
        let img = TGAImage::from_tga_bytes(&file_with_header(&h, &body)).unwrap();
        assert_eq!(img.get(0, 0), px(want[0]));
        assert_eq!(img.get(1, 0), px(want[1]));
        assert_eq!(img.get(0, 1), px(want[2]));
        assert_eq!(img.get(1, 1), px(want[3]));
    }
}
