use tgaimage::color::TGAColor;
use tgaimage::image::TGAImage;

fn numbered(w: usize, h: usize) -> TGAImage {
    let mut img = TGAImage::new(w, h, 3);
    for y in 0..h {
        for x in 0..w {
            assert!(img.set(x, y, &TGAColor::rgb(x as u8, y as u8, (x * 10 + y) as u8)));
        }
    }
    img
}

#[test]
fn new_is_zero_filled() {
    let img = TGAImage::new(3, 2, 4);
    assert_eq!(img.width(), 3);
    assert_eq!(img.height(), 2);
    assert_eq!(img.bytes_per_pixel(), 4);
    assert_eq!(img.pixel_bytes(), &[0u8; 24][..]);
}

#[test]
fn set_stores_blue_green_red() {
    let mut img = TGAImage::new(2, 2, 3);
    assert!(img.set(1, 1, &TGAColor::rgb(10, 20, 30)));
    assert_eq!(img.pixel_bytes(), &[0, 0, 0, 0, 0, 0, 0, 0, 0, 30, 20, 10][..]);
    let mut img = TGAImage::new(1, 1, 4);
    assert!(img.set(0, 0, &TGAColor::rgba(1, 2, 3, 4)));
    assert_eq!(img.pixel_bytes(), &[3, 2, 1, 4][..]);
}

#[test]
fn set_out_of_bounds_changes_nothing() {
    let mut img = numbered(3, 2);
    let before = img.pixel_bytes().to_vec();
    assert!(!img.set(3, 0, &TGAColor::rgb(1, 1, 1)));
    assert!(!img.set(0, 2, &TGAColor::rgb(1, 1, 1)));
    assert!(!img.set(usize::MAX, usize::MAX, &TGAColor::rgb(1, 1, 1)));
    assert_eq!(img.pixel_bytes(), &before[..]);
}

#[test]
fn set_with_wrong_color_kind_changes_nothing() {
    let mut img = numbered(2, 2);
    let before = img.pixel_bytes().to_vec();
    assert!(!img.set(0, 0, &TGAColor::rgba(1, 2, 3, 4)));
    assert_eq!(img.pixel_bytes(), &before[..]);
    let mut img = TGAImage::new(2, 2, 4);
    assert!(!img.set(1, 0, &TGAColor::rgb(1, 2, 3)));
    assert_eq!(img.pixel_bytes(), &[0u8; 16][..]);
}

#[test]
fn get_returns_what_set_wrote() {
    let mut img = TGAImage::new(4, 3, 3);
    assert!(img.set(2, 1, &TGAColor::rgb(200, 100, 50)));
    assert_eq!(img.get(2, 1), TGAColor::rgb(200, 100, 50));
    assert_eq!(img.get(1, 2), TGAColor::rgb(0, 0, 0));
    let mut img = TGAImage::new(4, 3, 4);
    assert!(img.set(3, 2, &TGAColor::rgba(9, 8, 7, 6)));
    assert_eq!(img.get(3, 2), TGAColor::rgba(9, 8, 7, 6));
}

#[test]
fn flip_horizontally_mirrors_columns() {
    let mut img = numbered(3, 2);
    assert!(img.flip_horizontally());
    for y in 0..2 {
        for x in 0..3 {
            let src = 2 - x;
            assert_eq!(img.get(x, y), TGAColor::rgb(src as u8, y as u8, (src * 10 + y) as u8));
        }
    }
}

#[test]
fn flip_vertically_mirrors_rows() {
    let mut img = numbered(2, 3);
    assert!(img.flip_vertically());
    for y in 0..3 {
        for x in 0..2 {
            let src = 2 - y;
            assert_eq!(img.get(x, y), TGAColor::rgb(x as u8, src as u8, (x * 10 + src) as u8));
        }
    }
}

#[test]
fn flipping_twice_is_identity() {
    let mut img = numbered(5, 4);
    let before = img.pixel_bytes().to_vec();
    img.flip_horizontally();
    assert_ne!(img.pixel_bytes(), &before[..]);
    img.flip_horizontally();
    assert_eq!(img.pixel_bytes(), &before[..]);
    img.flip_vertically();
    assert_ne!(img.pixel_bytes(), &before[..]);
    img.flip_vertically();
    assert_eq!(img.pixel_bytes(), &before[..]);
}

#[test]
fn flips_of_empty_image_do_nothing() {
    let mut img = TGAImage::new(0, 5, 3);
    assert!(img.flip_horizontally());
    assert!(img.flip_vertically());
    assert_eq!(img.pixel_bytes().len(), 0);
}
