use tgaimage::header::TGAHeader;
use tgaimage::error::TgaError;

fn sample_header() -> TGAHeader {
    let mut h = TGAHeader::new();
    h.image_type = 10;
    h.color_map_origin = 0x0102;
    h.x_origin = 7;
    h.y_origin = 0x0300;
    h.width = 640;
    h.height = 0xABCD;
    h.bits_per_pixel = 32;
    h.image_descriptor = 0x20;
    h
}

#[test]
fn raw_is_little_endian_in_field_order() {
    let bytes = sample_header().raw();
    assert_eq!(
        bytes,
        vec![0, 0, 10, 0x02, 0x01, 0, 0, 0, 7, 0, 0x00, 0x03, 0x80, 0x02, 0xCD, 0xAB, 32, 0x20]
    );
}

#[test]
fn from_buf_reads_what_raw_wrote() {
    let h = sample_header();
    assert_eq!(TGAHeader::from_buf(&h.raw()), h);
}

#[test]
fn from_reader_ignores_following_bytes() {
    let h = sample_header();
    let mut bytes = h.raw();
    bytes.extend_from_slice(&[9, 9, 9]);
    assert_eq!(TGAHeader::from_reader(&bytes), Ok(h));
}

#[test]
fn from_reader_short_input_is_truncated() {
    let bytes = sample_header().raw();
    assert_eq!(TGAHeader::from_reader(&bytes[..17]), Err(TgaError::Truncated));
    assert_eq!(TGAHeader::from_reader(&[]), Err(TgaError::Truncated));
}

#[test]
fn new_header_is_all_zero() {
    assert_eq!(TGAHeader::new().raw(), vec![0u8; 18]);
}
