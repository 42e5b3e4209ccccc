use bmp_stego::bitmap::{ParseError, BMP};

/// A bitmap file of the given geometry: a 54-byte header, then a pixel
/// array of rows padded to four bytes, filled with a fixed pattern.
fn build(width: i32, height: i32, bits: u16) -> Vec<u8> {
    let bpp = (bits / 8) as usize;
    let row = (bpp * width.unsigned_abs() as usize + 3) / 4 * 4;
    let data = row * height.unsigned_abs() as usize;
    let mut v = vec![0u8; 54 + data];
    v[0] = b'B';
    v[1] = b'M';
    v[2..6].copy_from_slice(&((54 + data) as u32).to_le_bytes());
    v[10..14].copy_from_slice(&54u32.to_le_bytes());
    v[14..18].copy_from_slice(&40u32.to_le_bytes());
    v[18..22].copy_from_slice(&width.to_le_bytes());
    v[22..26].copy_from_slice(&height.to_le_bytes());
    v[26..28].copy_from_slice(&1u16.to_le_bytes());
    v[28..30].copy_from_slice(&bits.to_le_bytes());
    for i in 0..data {
        v[54 + i] = (i * 31 + 7) as u8;
    }
    v
}

#[test]
fn copy() {
    let bytes = build(630, 354, 24);
    let img = BMP::new(bytes.clone()).unwrap();
    let saved = img.as_bytes().to_vec();
    assert_eq!(saved, bytes);
    let again = BMP::new(saved).unwrap();
    assert_eq!(again.width(), 630);
}

#[test]
fn dimensions() {
    let img = BMP::new(build(630, 354, 24)).unwrap();
    assert_eq!(630, img.width());
    assert_eq!(354, img.height().abs());
}

#[test]
fn negative_height_counts_rows() {
    let img = BMP::new(build(5, -3, 8)).unwrap();
    assert_eq!(img.height(), -3);
    assert_eq!(img.num_pixels(), 15);
}

#[test]
fn parse_too_short() {
    assert_eq!(BMP::new(vec![b'B', b'M', 0, 0]).err(), Some(ParseError::TooShort));
    assert_eq!(BMP::new(Vec::new()).err(), Some(ParseError::TooShort));
}

#[test]
fn parse_bad_magic() {
    let mut bytes = build(4, 4, 24);
    bytes[0] = b'X';
    assert_eq!(BMP::new(bytes).err(), Some(ParseError::BadMagic));
}

#[test]
fn parse_depth_too_small() {
    let bytes = build(4, 4, 4);
    assert_eq!(BMP::new(bytes).err(), Some(ParseError::DepthTooSmall));
}

#[test]
fn header_fields() {
    let img = BMP::new(build(630, 354, 24)).unwrap();
    assert_eq!(img.pixel_size(), 24);
    assert_eq!(img.bytes_per_pixel(), 3);
    assert_eq!(img.num_pixels(), 630 * 354);
}

#[test]
fn derived_sizes_with_padding() {
    let img = BMP::new(build(630, 354, 24)).unwrap();
    assert_eq!(img.padding_per_row(), 2);
    assert_eq!(img.row_size(), 1892);
    assert_eq!(img.pixel_array_size(), 1892 * 354);
}

#[test]
fn derived_sizes_without_padding() {
    let img = BMP::new(build(4, 2, 24)).unwrap();
    assert_eq!(img.padding_per_row(), 0);
    assert_eq!(img.row_size(), 12);
    assert_eq!(img.pixel_array_size(), 24);
    let img = BMP::new(build(3, 2, 8)).unwrap();
    assert_eq!(img.padding_per_row(), 1);
    assert_eq!(img.row_size(), 4);
    let img = BMP::new(build(1, 1, 32)).unwrap();
    assert_eq!(img.padding_per_row(), 0);
    assert_eq!(img.row_size(), 4);
}

#[test]
fn pixel_addressing() {
    let bytes = build(630, 354, 24);
    let img = BMP::new(bytes.clone()).unwrap();
    assert_eq!(img.pixel(0).unwrap(), &bytes[54..57]);
    assert_eq!(img.pixel(1).unwrap(), &bytes[57..60]);
    // One byte of adjustment per completed row, as rows are padded.
    let start = 54 + 630 * 3 + 1;
    assert_eq!(img.pixel(630).unwrap(), &bytes[start..start + 3]);
    let start = 54 + 1261 * 3 + 2;
    assert_eq!(img.pixel(1261).unwrap(), &bytes[start..start + 3]);
}

#[test]
fn pixel_out_of_range() {
    let img = BMP::new(build(4, 4, 24)).unwrap();
    assert!(img.pixel(15).is_some());
    assert!(img.pixel(16).is_none());
    let mut truncated = build(4, 4, 24);
    truncated.truncate(60);
    let img = BMP::new(truncated).unwrap();
    assert!(img.pixel(1).is_some());
    assert!(img.pixel(2).is_none());
    assert!(!img.pixels_in_bounds());
}

#[test]
fn pixel_as_mut_writes_in_place() {
    let bytes = build(4, 4, 24);
    let mut img = BMP::new(bytes.clone()).unwrap();
    {
        let px = img.pixel_as_mut(5).unwrap();
        assert_eq!(px.len(), 3);
        px[0] = 0xAA;
        px[2] = 0xBB;
    }
    assert_eq!(img.pixel(5).unwrap()[0], 0xAA);
    assert_eq!(img.pixel(5).unwrap()[2], 0xBB);
    let mut expected = bytes;
    expected[54 + 15] = 0xAA;
    expected[54 + 17] = 0xBB;
    assert_eq!(img.as_bytes(), &expected[..]);
    assert!(img.pixel_as_mut(16).is_none());
}

#[test]
fn pixel_byte_and_set_pixel_byte() {
    let bytes = build(4, 4, 24);
    let mut img = BMP::new(bytes.clone()).unwrap();
    assert_eq!(img.pixel_byte(2), bytes[60]);
    img.set_pixel_byte(2, 0x11);
    assert_eq!(img.pixel_byte(2), 0x11);
    assert_eq!(img.as_bytes()[60], 0x11);
    assert_eq!(img.as_bytes()[61], bytes[61]);
}
