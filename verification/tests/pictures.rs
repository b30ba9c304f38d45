use std::io::Cursor;

use panelmc::icons::{bytes_to_icon_pixels, icon_from_bytes};
use panelmc::pictures::tame;

fn encoded(width: u32, height: u32, format: image::ImageFormat) -> Vec<u8> {
    let img = image::RgbImage::from_pixel(width, height, image::Rgb([200, 100, 50]));
    let mut out = Cursor::new(Vec::new());
    img.write_to(&mut out, format).unwrap();
    out.into_inner()
}

fn jpeg() -> Vec<u8> {
    encoded(40, 20, image::ImageFormat::Jpeg)
}

/// Where the marker `kind` stands first.
fn marker(bytes: &[u8], kind: u8) -> usize {
    bytes.windows(2).position(|w| w == [0xff, kind]).expect("marker")
}

/// A grey picture as far as its first scan: a table of 16-bit entries that begins with `entry`,
/// one of differences of up to `category` bits, and `width` by 8 pixels.
fn head(entry: u16, category: u8, width: u16, frame: u8) -> Vec<u8> {
    let mut out = vec![0xff, 0xd8, 0xff, 0xdb, 0, 131, 0x10];
    out.extend_from_slice(&entry.to_be_bytes());
    out.extend_from_slice(&[0; 126]);
    out.extend_from_slice(&[0xff, frame, 0, 11, 8, 0, 8]);
    out.extend_from_slice(&width.to_be_bytes());
    out.extend_from_slice(&[1, 1, 0x11, 0]);
    out.extend_from_slice(&[0xff, 0xc4, 0, 20, 0, 1]);
    out.extend_from_slice(&[0; 15]);
    out.push(category);
    out.extend_from_slice(&[0xff, 0xda, 0, 8, 1, 1, 0, 0, 63, 0, 0x55]);
    out
}

#[test]
fn ordinary_pictures_are_decoded() {
    for format in [image::ImageFormat::Jpeg, image::ImageFormat::Png, image::ImageFormat::Gif] {
        let bytes = encoded(40, 20, format);
        assert!(tame(&bytes));
        let p = bytes_to_icon_pixels(&bytes).expect("icon");
        assert_eq!((p.width, p.height), (64, 32));
        assert!(p.rgba[0].abs_diff(200) < 8 && p.rgba[1].abs_diff(100) < 8 && p.rgba[2].abs_diff(50) < 8);
        assert_eq!(p.rgba[3], 255);
        assert!(icon_from_bytes(&bytes).is_some());
    }
    assert!(tame(b""));
    assert!(tame(b"no picture"));
    assert!(tame(&[0xff, 0xd8, 0xff]));
}

#[test]
fn a_large_jpeg_is_decoded() {
    let bytes = encoded(1200, 900, image::ImageFormat::Jpeg);
    assert!(tame(&bytes));
    let p = bytes_to_icon_pixels(&bytes).expect("icon");
    assert_eq!((p.width, p.height), (64, 48));
}

#[test]
fn first_coefficients_of_a_jpeg() {
    assert!(tame(&head(65_535, 15, 8, 0xc0)));
    assert!(!tame(&head(65_535, 15, 9, 0xc0)));
    assert!(!tame(&head(65_535, 15, 9, 0xc1)));
    assert!(tame(&head(65_535, 15, 9, 0xc2)));
    assert!(tame(&head(65_535, 14, 16, 0xc0)));
    assert!(!tame(&head(65_535, 14, 17, 0xc0)));
    assert!(tame(&head(16, 11, 65_535, 0xc0)));
    assert!(bytes_to_icon_pixels(&head(65_535, 15, 9, 0xc0)).is_none());
    // A second scan goes on where the first one ends.
    let mut twice = head(65_535, 14, 16, 0xc0);
    twice.extend_from_slice(&[0xff, 0xda, 0, 8, 1, 1, 0, 0, 63, 0]);
    assert!(!tame(&twice));
    let mut other = head(65_535, 14, 16, 0xc0);
    other.extend_from_slice(&[0xff, 0xda, 0, 8, 1, 2, 0, 0, 63, 0]);
    assert!(tame(&other));
    // A table after the first scan may hold any category.
    let mut late = head(65_535, 1, 9, 0xc0);
    late.extend_from_slice(&[0xff, 0xc4]);
    assert!(!tame(&late));
    // The table that the scan names counts, the entry that stands last.
    let mut entries = head(65_535, 15, 9, 0xc0);
    let at = marker(&entries, 0xc0);
    let mut small = vec![0xff, 0xdb, 0, 67, 0, 1];
    small.extend_from_slice(&[1; 63]);
    entries.splice(at..at, small);
    assert!(tame(&entries));
    let mut named = head(65_535, 15, 9, 0xc0);
    let at = marker(&named, 0xda);
    named[at + 6] = 0x10;
    assert!(tame(&named));
    assert!(bytes_to_icon_pixels(&named).is_none());
}

#[test]
fn a_jpeg_of_the_largest_size() {
    let mut bytes = jpeg();
    let at = marker(&bytes, 0xc0);
    bytes[at + 5..at + 9].copy_from_slice(&[0xff; 4]);
    assert!(!tame(&bytes));
    assert!(bytes_to_icon_pixels(&bytes).is_none());
    assert!(icon_from_bytes(&bytes).is_none());
}

#[test]
fn components_of_a_jpeg() {
    let mut bytes = jpeg();
    let at = marker(&bytes, 0xc0);
    bytes[at + 14] = 0x22;
    assert!(!tame(&bytes));
    bytes[at + 11] = 0x22;
    assert!(tame(&bytes));
    bytes[at + 11] = 0x24;
    assert!(!tame(&bytes));
    bytes[at + 11] = 0x41;
    assert!(!tame(&bytes));
    bytes[at + 14] = 0x11;
    assert!(tame(&bytes));
    bytes[at + 9] = 2;
    assert!(!tame(&bytes));
    let mut grey = head(1, 1, 65_535, 0xc0);
    assert!(tame(&grey));
    let at = marker(&grey, 0xc0);
    grey[at + 11] = 0x21;
    assert!(!tame(&grey));
    grey[at + 7..at + 9].copy_from_slice(&65_528u16.to_be_bytes());
    assert!(tame(&grey));
}

#[test]
fn colour_spaces_of_a_jpeg() {
    let adobe = [0xff, 0xee, 0, 14, b'A', b'd', b'o', b'b', b'e', 0, 100, 0, 0, 0, 0, 1];
    let mut early = jpeg();
    early.splice(2..2, adobe);
    assert!(tame(&early));
    assert!(bytes_to_icon_pixels(&early).is_some());
    let mut late = jpeg();
    let at = marker(&late, 0xda);
    late.splice(at..at, adobe);
    assert!(!tame(&late));
    let mut trailing = jpeg();
    trailing.extend_from_slice(&adobe);
    assert!(!tame(&trailing));
    assert!(bytes_to_icon_pixels(&trailing).is_none());
}

#[test]
fn palettes_of_a_png() {
    let indexed = |size: u8, colours: &[u8]| {
        let mut out = b"\x89PNG\r\n\x1a\n\0\0\0\x0dIHDR\0\0\0\x01\0\0\0\x01\x08\x03\0\0\0\0\0\0\0".to_vec();
        out.extend_from_slice(&[0, 0, 0, size, b'P', b'L', b'T', b'E']);
        out.extend_from_slice(colours);
        out.extend_from_slice(&[0; 4]);
        out
    };
    assert!(tame(&indexed(3, &[1, 2, 3])));
    assert!(tame(&indexed(6, &[1; 6])));
    assert!(!tame(&indexed(4, &[1; 4])));
    assert!(!tame(&indexed(5, &[1; 5])));
    assert!(bytes_to_icon_pixels(&indexed(4, &[1; 4])).is_none());
    let mut coloured = indexed(4, &[1; 4]);
    coloured[25] = 2;
    assert!(tame(&coloured));
}

#[test]
fn parts_of_a_webp() {
    let bytes = encoded(40, 20, image::ImageFormat::WebP);
    assert!(!tame(&bytes));
    assert!(bytes_to_icon_pixels(&bytes).is_none());
    let with = |part: &[u8]| {
        let mut out = b"RIFF\0\0\0\0WEBP".to_vec();
        out.extend_from_slice(part);
        out
    };
    assert!(tame(&with(b"VP8 \0\0\0\0")));
    assert!(tame(&with(b"VP8X\x0a\0\0\0\0\0\0\0\0\0\0\0\0\0")));
    assert!(tame(&with(b"ALPH\x01\0\0\0\x04")));
    assert!(!tame(&with(b"ALPH\x01\0\0\0\x05")));
    assert!(!tame(&with(b"ANMF\x01\0\0\0")));
    assert!(!tame(&with(b"VP8 \0\0\0\0VP8L")));
    assert!(bytes_to_icon_pixels(&with(b"VP8 \0\0\0\0")).is_none());
}
