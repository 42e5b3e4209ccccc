use bmp_stego::bitmap::{NotComparableError, BMP};
use bmp_stego::metrics::{max_pixel_value, squared_error_sum};

fn build(width: i32, height: i32, bits: u16, pixels: &[u8]) -> BMP {
    let mut v = vec![0u8; 54];
    v[0] = b'B';
    v[1] = b'M';
    v[10..14].copy_from_slice(&54u32.to_le_bytes());
    v[18..22].copy_from_slice(&width.to_le_bytes());
    v[22..26].copy_from_slice(&height.to_le_bytes());
    v[28..30].copy_from_slice(&bits.to_le_bytes());
    v.extend_from_slice(pixels);
    BMP::new(v).unwrap()
}

#[test]
fn squared_error_of_itself_is_zero() {
    let a = build(2, 2, 8, &[10, 20, 0, 0, 30, 40, 0, 0]);
    assert_eq!(squared_error_sum(&a, &a), Ok(0));
}

#[test]
fn squared_error_is_symmetric() {
    let a = build(2, 1, 8, &[10, 20, 0, 0]);
    let b = build(2, 1, 8, &[13, 16, 0, 0]);
    assert_eq!(squared_error_sum(&a, &b), squared_error_sum(&b, &a));
}

#[test]
fn squared_error_exact_value() {
    let a = build(2, 1, 8, &[10, 20, 0, 0]);
    let b = build(2, 1, 8, &[13, 16, 0, 0]);
    assert_eq!(squared_error_sum(&a, &b), Ok(25));
}

#[test]
fn squared_error_combines_pixel_bytes() {
    // 16-bit pixels read little-endian: 0x0100 against 0x0001.
    let a = build(1, 1, 16, &[0x00, 0x01, 0, 0]);
    let b = build(1, 1, 16, &[0x01, 0x00, 0, 0]);
    assert_eq!(squared_error_sum(&a, &b), Ok(255 * 255));
}

#[test]
fn mismatched_dimensions_fail() {
    let a = build(2, 1, 8, &[1, 2, 0, 0]);
    let wider = build(3, 1, 8, &[1, 2, 3, 0]);
    let taller = build(2, 2, 8, &[1, 2, 0, 0, 3, 4, 0, 0]);
    let deeper = build(2, 1, 16, &[1, 2, 3, 4]);
    assert_eq!(squared_error_sum(&a, &wider), Err(NotComparableError));
    assert_eq!(squared_error_sum(&a, &taller), Err(NotComparableError));
    assert_eq!(squared_error_sum(&a, &deeper), Err(NotComparableError));
    assert!(!BMP::comparable(&a, &wider));
    assert!(BMP::comparable(&a, &a));
}

#[test]
fn not_comparable_message() {
    assert_eq!(NotComparableError.message(), "Provided BMPs are not comparable.");
}

#[test]
fn pixel_value_little_endian() {
    let a = build(1, 1, 24, &[1, 2, 3, 0]);
    assert_eq!(a.pixel_as_u64(0), 0x030201);
}

#[test]
fn max_pixel_value_scans_all() {
    let a = build(3, 1, 8, &[5, 200, 17, 0]);
    assert_eq!(max_pixel_value(&a), 200);
    let empty = build(0, 0, 8, &[]);
    assert_eq!(max_pixel_value(&empty), 0);
}
