use bmp_stego::bitmap::BMP;
use bmp_stego::stego::{get_text, hide_text, StegoError};

fn build(width: i32, height: i32, bits: u16) -> Vec<u8> {
    let bpp = (bits / 8) as usize;
    let row = (bpp * width.unsigned_abs() as usize + 3) / 4 * 4;
    let data = row * height.unsigned_abs() as usize;
    let mut v = vec![0u8; 54 + data];
    v[0] = b'B';
    v[1] = b'M';
    v[10..14].copy_from_slice(&54u32.to_le_bytes());
    v[18..22].copy_from_slice(&width.to_le_bytes());
    v[22..26].copy_from_slice(&height.to_le_bytes());
    v[28..30].copy_from_slice(&bits.to_le_bytes());
    for i in 0..data {
        v[54 + i] = (i * 31 + 7) as u8;
    }
    v
}

fn store(width: i32, height: i32, bits: u16) -> BMP {
    BMP::new(build(width, height, bits)).unwrap()
}

#[test]
fn hide_and_get() {
    let mut img = store(630, 354, 24);
    assert!(hide_text(&mut img, "Hello, World!", 2).is_ok());
    let saved = img.as_bytes().to_vec();
    img = BMP::new(saved).unwrap();
    let hidden_text = get_text(&img).unwrap();
    assert_eq!("Hello, World!", hidden_text);
}

#[test]
fn hello_world_changes_only_low_bits() {
    let original = build(630, 354, 24);
    let mut img = BMP::new(original.clone()).unwrap();
    hide_text(&mut img, "Hello, World!", 2).unwrap();
    let after = img.as_bytes();
    assert_eq!(after.len(), original.len());
    assert_eq!(&after[..54], &original[..54]);
    let mut changed = 0;
    for i in 0..after.len() {
        assert_eq!(after[i] & 0xFC, original[i] & 0xFC);
        if after[i] != original[i] {
            changed += 1;
        }
    }
    assert!(changed > 0);
}

#[test]
fn round_trip_every_k() {
    for k in 1..=8u8 {
        let mut img = store(40, 30, 24);
        hide_text(&mut img, "The quick brown fox", k).unwrap();
        assert_eq!(get_text(&img).unwrap(), "The quick brown fox");
    }
}

#[test]
fn round_trip_non_ascii() {
    let mut img = store(50, 50, 8);
    hide_text(&mut img, "héllo, wörld ✓", 3).unwrap();
    assert_eq!(get_text(&img).unwrap(), "héllo, wörld ✓");
}

#[test]
fn round_trip_longest_text() {
    let text = "a".repeat(255);
    let mut img = store(100, 100, 24);
    hide_text(&mut img, &text, 1).unwrap();
    assert_eq!(get_text(&img).unwrap(), text);
}

#[test]
fn round_trip_with_one_spare_pixel() {
    // k = 8: one pixel per byte; 3 header pixels, the length, 4 bytes and
    // one pixel of skip budget.
    let mut img = store(9, 1, 8);
    hide_text(&mut img, "abcd", 8).unwrap();
    assert_eq!(get_text(&img).unwrap(), "abcd");
}

#[test]
fn k_out_of_range_fails() {
    let mut img = store(40, 30, 24);
    let before = img.as_bytes().to_vec();
    assert_eq!(hide_text(&mut img, "hi", 0), Err(StegoError::InvalidBitsPerPixel));
    assert_eq!(hide_text(&mut img, "hi", 9), Err(StegoError::InvalidBitsPerPixel));
    assert_eq!(img.as_bytes(), &before[..]);
}

#[test]
fn k_at_range_ends_succeeds() {
    let mut img = store(40, 30, 24);
    hide_text(&mut img, "hi", 1).unwrap();
    assert_eq!(get_text(&img).unwrap(), "hi");
    let mut img = store(40, 30, 24);
    hide_text(&mut img, "hi", 8).unwrap();
    assert_eq!(get_text(&img).unwrap(), "hi");
}

#[test]
fn capacity_boundary() {
    // One byte of text and its length byte: 16 bits at k = 1.
    // 19 pixels leave 16 usable: exactly the bits needed, refused.
    let mut img = store(19, 1, 8);
    assert_eq!(hide_text(&mut img, "x", 1), Err(StegoError::InsufficientCapacity));
    // 20 pixels leave 17 usable: one bit to spare, accepted.
    let mut img = store(20, 1, 8);
    hide_text(&mut img, "x", 1).unwrap();
    assert_eq!(get_text(&img).unwrap(), "x");
    // At k = 2: 16 bits need 8 pixels; 8 usable pixels give exactly 16 bits.
    let mut img = store(11, 1, 8);
    assert_eq!(hide_text(&mut img, "x", 2), Err(StegoError::InsufficientCapacity));
    let mut img = store(12, 1, 8);
    hide_text(&mut img, "x", 2).unwrap();
    assert_eq!(get_text(&img).unwrap(), "x");
}

#[test]
fn capacity_counts_whole_pixels() {
    // k = 3: 4 bytes need 12 pixels although 11 pixels hold 33 bits.
    let mut img = store(14, 1, 8);
    assert_eq!(hide_text(&mut img, "abc", 3), Err(StegoError::InsufficientCapacity));
    let mut img = store(15, 1, 8);
    hide_text(&mut img, "abc", 3).unwrap();
    assert_eq!(get_text(&img).unwrap(), "abc");
}

#[test]
fn header_fidelity() {
    for k in 1..=8u8 {
        let mut img = store(40, 30, 24);
        hide_text(&mut img, "header", k).unwrap();
        let b0 = img.pixel(0).unwrap()[0] & 1;
        let b1 = img.pixel(1).unwrap()[0] & 1;
        let b2 = img.pixel(2).unwrap()[0] & 1;
        assert_eq!((b0 << 2 | b1 << 1 | b2) + 1, k);
    }
}

#[test]
fn length_byte_follows_header() {
    // k = 8: the length byte is the whole first byte of pixel 3.
    let mut img = store(40, 30, 24);
    hide_text(&mut img, "seven!!", 8).unwrap();
    assert_eq!(img.pixel(3).unwrap()[0], 7);
}

#[test]
fn empty_text_fails() {
    let mut img = store(40, 30, 24);
    assert_eq!(hide_text(&mut img, "", 2), Err(StegoError::EmptyText));
}

#[test]
fn text_too_long_fails() {
    let text = "a".repeat(256);
    let mut img = store(100, 100, 24);
    assert_eq!(hide_text(&mut img, &text, 8), Err(StegoError::TextTooLong));
}

#[test]
fn no_usable_pixels_fails() {
    let mut img = store(3, 1, 24);
    assert_eq!(hide_text(&mut img, "a", 8), Err(StegoError::NoUsablePixels));
}

#[test]
fn pixels_out_of_bounds_fails() {
    let mut bytes = build(40, 30, 24);
    bytes.truncate(200);
    let mut img = BMP::new(bytes.clone()).unwrap();
    assert_eq!(hide_text(&mut img, "a", 8), Err(StegoError::PixelsOutOfBounds));
    assert_eq!(img.as_bytes(), &bytes[..]);
    assert_eq!(get_text(&img), Err(StegoError::PixelsOutOfBounds));
}

#[test]
fn get_text_without_room_fails() {
    // k = 1 announced, but 8 pixels cannot hold the length byte.
    let mut bytes = build(8, 1, 8);
    for i in 0..8 {
        bytes[54 + i] = 0;
    }
    let img = BMP::new(bytes).unwrap();
    assert_eq!(get_text(&img), Err(StegoError::NoHiddenText));
    let img = store(2, 1, 8);
    assert_eq!(get_text(&img), Err(StegoError::NoHiddenText));
}

#[test]
fn get_text_invalid_utf8_fails() {
    // k = 8, length 1, then the byte 0xFF: no room left to skip.
    let mut bytes = build(5, 1, 8);
    bytes[54] = 1;
    bytes[55] = 1;
    bytes[56] = 1;
    bytes[57] = 1;
    bytes[58] = 0xFF;
    let img = BMP::new(bytes).unwrap();
    assert_eq!(get_text(&img), Err(StegoError::InvalidUtf8));
}

#[test]
fn get_text_reads_hand_made_store() {
    // k = 8, length 2, "ok", with no spare pixels.
    let mut bytes = build(6, 1, 8);
    bytes[54] = 1;
    bytes[55] = 1;
    bytes[56] = 1;
    bytes[57] = 2;
    bytes[58] = b'o';
    bytes[59] = b'k';
    let img = BMP::new(bytes).unwrap();
    assert_eq!(get_text(&img).unwrap(), "ok");
}
