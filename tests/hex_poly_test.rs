use falcon_rust::hex::{format_hex, hex_decode, HexError};
use falcon_rust::poly::{mul_exact, mul_mod_q};

#[test]
fn format_hex_digits() {
    assert_eq!(format_hex(0x00), *b"00");
    assert_eq!(format_hex(0x3A), *b"3A");
    assert_eq!(format_hex(0xFF), *b"FF");
    assert_eq!(format_hex(0x9c), *b"9C");
}

#[test]
fn hex_decode_values() {
    assert_eq!(hex_decode(b"00ff3A"), Ok(vec![0x00, 0xFF, 0x3A]));
    assert_eq!(hex_decode(b" 0a\n0B\r\n"), Ok(vec![0x0A, 0x0B]));
    assert_eq!(hex_decode(b""), Ok(vec![]));
}

#[test]
fn hex_decode_errors() {
    assert_eq!(hex_decode(b"abc"), Err(HexError::OddLength));
    assert_eq!(hex_decode(b"zz"), Err(HexError::InvalidDigit));
    assert_eq!(hex_decode(b"0g"), Err(HexError::InvalidDigit));
}

#[test]
fn hex_round_trip() {
    let bytes: Vec<u8> = (0..=255u8).collect();
    let mut text = Vec::new();
    for b in &bytes {
        text.extend_from_slice(&format_hex(*b));
    }
    assert_eq!(hex_decode(&text), Ok(bytes));
}

#[test]
fn negacyclic_products() {
    // x^3 * x = x^4 = -1 modulo x^4 + 1
    assert_eq!(mul_mod_q(&[0, 0, 0, 1], &[0, 1, 0, 0]), vec![12288, 0, 0, 0]);
    assert_eq!(mul_exact(&[0, 0, 0, 1], &[0, 1, 0, 0]), vec![-1, 0, 0, 0]);
    // (1 + 2x)(3 + x^3) = 3 + 6x + x^3 + 2x^4 = 1 + 6x + x^3
    assert_eq!(mul_exact(&[1, 2, 0, 0], &[3, 0, 0, 1]), vec![1, 6, 0, 1]);
    assert_eq!(mul_mod_q(&[12288, 1], &[12288, 1]), vec![0, 12287]);
}
