use tinyrender::tga::{tga_format, TGAColor, TGAHeader, TGAImage, TgaError};

/// An 18-byte TGA header with the fields the codec reads.
fn make_header(data_type_code: u8, w: u16, h: u16, bits: u8, descriptor: u8) -> Vec<u8> {
    let mut b = vec![0u8; 18];
    b[2] = data_type_code;
    b[12] = (w % 256) as u8;
    b[13] = (w / 256) as u8;
    b[14] = (h % 256) as u8;
    b[15] = (h / 256) as u8;
    b[16] = bits;
    b[17] = descriptor;
    b
}

fn gray(v: u8) -> TGAColor {
    TGAColor::new_raw(&[v], 1)
}

#[test]
fn format_table() {
    let f = tga_format();
    assert_eq!(f.Grayscale, 1);
    assert_eq!(f.RGB, 3);
    assert_eq!(f.RGBA, 4);
}

#[test]
fn color_constructors() {
    let c = TGAColor::new();
    assert_eq!(c.bgra, [0, 0, 0, 0]);
    assert_eq!(c.bytespp, 0);
    let c = TGAColor::new_rgba(255, 128, 7, 9);
    assert_eq!(c.bgra, [7, 128, 255, 9]);
    assert_eq!(c.bytespp, 4);
    let c = TGAColor::new_raw(&[1, 2, 3, 4, 5], 3);
    assert_eq!(c.bgra, [1, 2, 3, 0]);
    assert_eq!(c.bytespp, 3);
}

#[test]
fn header_roundtrip() {
    let mut h = TGAHeader::new();
    h.data_type_code = 10;
    h.width = 0x1234;
    h.height = 0x00ff;
    h.bits_per_pixel = 24;
    h.image_descriptor = 0x20;
    let bytes = h.to_bytes();
    assert_eq!(bytes.len(), 18);
    assert_eq!(bytes[2], 10);
    assert_eq!(bytes[12], 0x34);
    assert_eq!(bytes[13], 0x12);
    assert_eq!(bytes[14], 0xff);
    assert_eq!(bytes[15], 0x00);
    assert_eq!(bytes[16], 24);
    assert_eq!(bytes[17], 0x20);
    let parsed = TGAHeader::parse(&bytes).unwrap();
    assert_eq!(parsed, h);
}

#[test]
fn header_parse_needs_18_bytes() {
    assert!(TGAHeader::parse(&[0u8; 17]).is_none());
    assert!(TGAHeader::parse(&[0u8; 18]).is_some());
}

#[test]
fn empty_image_has_no_storage() {
    let mut img = TGAImage::new();
    assert_eq!(img.get_width(), 0);
    assert_eq!(img.get_height(), 0);
    let c = img.get(0, 0);
    assert_eq!(c.bytespp, 0);
    assert_eq!(c.bgra, [0, 0, 0, 0]);
    assert!(!img.flip_vertically());
    assert!(!img.flip_horizontally());
}

#[test]
fn set_and_get_interior_pixel() {
    let mut img = TGAImage::new_dimensions(10, 10, 3);
    assert_eq!(img.get_width(), 10);
    assert_eq!(img.get_height(), 10);
    img.set(5, 4, &TGAColor::new_rgba(255, 0, 0, 255));
    let c = img.get(5, 4);
    assert_eq!(c.bytespp, 3);
    assert_eq!(c.bgra, [0, 0, 255, 0]);
    // an untouched pixel keeps the background value
    let b = img.get(0, 0);
    assert_eq!(b.bgra, [0, 0, 0, 0]);
}

#[test]
fn set_out_of_bounds_writes_nothing() {
    let mut img = TGAImage::new_dimensions(2, 2, 1);
    img.set(-1, 0, &gray(9));
    img.set(0, -1, &gray(9));
    img.set(2, 0, &gray(9));
    img.set(0, 2, &gray(9));
    for x in 0..2 {
        for y in 0..2 {
            assert_eq!(img.get(x, y).bgra[0], 0);
        }
    }
    let c = img.get(2, 0);
    assert_eq!(c.bytespp, 0);
}

#[test]
fn flip_vertically_reverses_rows() {
    let mut img = TGAImage::new_dimensions(2, 3, 1);
    let mut v: u8 = 1;
    for y in 0..3 {
        for x in 0..2 {
            img.set(x, y, &gray(v));
            v += 1;
        }
    }
    assert!(img.flip_vertically());
    assert_eq!(img.get(0, 0).bgra[0], 5);
    assert_eq!(img.get(1, 0).bgra[0], 6);
    assert_eq!(img.get(0, 1).bgra[0], 3);
    assert_eq!(img.get(1, 1).bgra[0], 4);
    assert_eq!(img.get(0, 2).bgra[0], 1);
    assert_eq!(img.get(1, 2).bgra[0], 2);
}

#[test]
fn flip_horizontally_reverses_columns() {
    let mut img = TGAImage::new_dimensions(3, 2, 1);
    let mut v: u8 = 1;
    for y in 0..2 {
        for x in 0..3 {
            img.set(x, y, &gray(v));
            v += 1;
        }
    }
    assert!(img.flip_horizontally());
    assert_eq!(img.get(0, 0).bgra[0], 3);
    assert_eq!(img.get(1, 0).bgra[0], 2);
    assert_eq!(img.get(2, 0).bgra[0], 1);
    assert_eq!(img.get(0, 1).bgra[0], 6);
    assert_eq!(img.get(1, 1).bgra[0], 5);
    assert_eq!(img.get(2, 1).bgra[0], 4);
}

#[test]
fn read_literal_chunk() {
    // 2x2 grayscale, run-length coded, origin bit set so no flip happens:
    // one literal chunk of four pixels.
    let mut bytes = make_header(11, 2, 2, 8, 0x20);
    bytes.extend_from_slice(&[3, 10, 20, 30, 40]);
    let mut img = TGAImage::new();
    assert_eq!(img.read_tga_data(&bytes), Ok(()));
    assert_eq!(img.get_width(), 2);
    assert_eq!(img.get_height(), 2);
    assert_eq!(img.get(0, 0).bgra[0], 10);
    assert_eq!(img.get(1, 0).bgra[0], 20);
    assert_eq!(img.get(0, 1).bgra[0], 30);
    assert_eq!(img.get(1, 1).bgra[0], 40);
}

#[test]
fn read_run_chunk() {
    // 4x1 grayscale: a run of two pixels of value 5, then two literals.
    let mut bytes = make_header(11, 4, 1, 8, 0x20);
    bytes.extend_from_slice(&[0x81, 5, 0x01, 8, 9]);
    let mut img = TGAImage::new();
    assert_eq!(img.read_tga_data(&bytes), Ok(()));
    assert_eq!(img.get(0, 0).bgra[0], 5);
    assert_eq!(img.get(1, 0).bgra[0], 5);
    assert_eq!(img.get(2, 0).bgra[0], 8);
    assert_eq!(img.get(3, 0).bgra[0], 9);
}

#[test]
fn read_applies_vertical_flip_when_origin_bit_clear() {
    let mut bytes = make_header(11, 2, 2, 8, 0x00);
    bytes.extend_from_slice(&[3, 10, 20, 30, 40]);
    let mut img = TGAImage::new();
    assert_eq!(img.read_tga_data(&bytes), Ok(()));
    assert_eq!(img.get(0, 0).bgra[0], 30);
    assert_eq!(img.get(1, 0).bgra[0], 40);
    assert_eq!(img.get(0, 1).bgra[0], 10);
    assert_eq!(img.get(1, 1).bgra[0], 20);
}

#[test]
fn read_applies_horizontal_flip() {
    let mut bytes = make_header(11, 2, 2, 8, 0x30);
    bytes.extend_from_slice(&[3, 10, 20, 30, 40]);
    let mut img = TGAImage::new();
    assert_eq!(img.read_tga_data(&bytes), Ok(()));
    assert_eq!(img.get(0, 0).bgra[0], 20);
    assert_eq!(img.get(1, 0).bgra[0], 10);
    assert_eq!(img.get(0, 1).bgra[0], 40);
    assert_eq!(img.get(1, 1).bgra[0], 30);
}

#[test]
fn read_multibyte_pixels() {
    // 1x2 RGB, one run chunk covering both pixels, no flip.
    let mut bytes = make_header(10, 1, 2, 24, 0x20);
    bytes.extend_from_slice(&[0x81, 7, 8, 9]);
    let mut img = TGAImage::new();
    assert_eq!(img.read_tga_data(&bytes), Ok(()));
    let c = img.get(0, 1);
    assert_eq!(c.bytespp, 3);
    assert_eq!(c.bgra, [7, 8, 9, 0]);
}

#[test]
fn read_too_short() {
    let mut img = TGAImage::new();
    assert_eq!(img.read_tga_data(&[0u8; 17]), Err(TgaError::TooShort));
    assert_eq!(img.read_tga_data(&[]), Err(TgaError::TooShort));
    assert_eq!(img.get_width(), 0);
}

#[test]
fn read_unsupported_type_code() {
    // an uncompressed image: the codec only reads run-length coded data
    let bytes = make_header(2, 2, 2, 8, 0x20);
    let mut img = TGAImage::new();
    assert_eq!(img.read_tga_data(&bytes), Err(TgaError::Unsupported));
}

#[test]
fn read_unsupported_pixel_size() {
    let bytes = make_header(10, 2, 2, 0, 0x20);
    let mut img = TGAImage::new();
    assert_eq!(img.read_tga_data(&bytes), Err(TgaError::Unsupported));
    let bytes = make_header(10, 2, 2, 64, 0x20);
    assert_eq!(img.read_tga_data(&bytes), Err(TgaError::Unsupported));
}

#[test]
fn read_too_large() {
    let bytes = make_header(10, 65535, 65535, 32, 0x20);
    let mut img = TGAImage::new();
    assert_eq!(img.read_tga_data(&bytes), Err(TgaError::TooLarge));
}

#[test]
fn read_bad_data() {
    // literal chunk announcing four pixels but only three bytes follow
    let mut bytes = make_header(11, 2, 2, 8, 0x20);
    bytes.extend_from_slice(&[3, 10, 20, 30]);
    let mut img = TGAImage::new();
    assert_eq!(img.read_tga_data(&bytes), Err(TgaError::BadData));
    // a run chunk overshooting the pixel count
    let mut bytes = make_header(11, 2, 2, 8, 0x20);
    bytes.extend_from_slice(&[0x84, 9]);
    assert_eq!(img.read_tga_data(&bytes), Err(TgaError::BadData));
    // no pixel data at all
    let bytes = make_header(11, 2, 2, 8, 0x20);
    assert_eq!(img.read_tga_data(&bytes), Err(TgaError::BadData));
    // a failed read leaves the image as it was
    assert_eq!(img.get_width(), 0);
}

#[test]
fn write_produces_exact_bytes() {
    let mut img = TGAImage::new_dimensions(2, 1, 1);
    img.set(0, 0, &gray(5));
    img.set(1, 0, &gray(9));
    let bytes = img.write_tga_data(false);
    let expected = vec![
        0u8, 0, 3, 0, 0, 0, 0, 0, 0, 0, 0, 0, 2, 0, 1, 0, 8, 0x20, 5, 9,
    ];
    assert_eq!(bytes, expected);
}

#[test]
fn written_bytes_start_with_the_image_header() {
    let img = TGAImage::new_dimensions(3, 2, 3);
    let bytes = img.write_tga_data(false);
    assert_eq!(bytes.len(), 18 + 3 * 2 * 3);
    let h = TGAHeader::parse(&bytes).unwrap();
    assert_eq!(h.width, 3);
    assert_eq!(h.height, 2);
    assert_eq!(h.bits_per_pixel, 24);
    assert_eq!(h.data_type_code, 2);
    assert_eq!(h.image_descriptor, 0x20);
}

#[test]
fn write_records_rle_type_codes() {
    let gray_img = TGAImage::new_dimensions(1, 1, 1);
    assert_eq!(gray_img.write_tga_data(true)[2], 11);
    assert_eq!(gray_img.write_tga_data(false)[2], 3);
    let rgb_img = TGAImage::new_dimensions(1, 1, 3);
    assert_eq!(rgb_img.write_tga_data(true)[2], 10);
    assert_eq!(rgb_img.write_tga_data(false)[2], 2);
}
