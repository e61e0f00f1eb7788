use falcon_rust::encoding::{compress, compress_coefficient, decompress};

fn short_elements(n: usize) -> Vec<i16> {
    (0..n).map(|i| ((i as i16) % 100) - 50).collect()
}

#[test]
fn compress_empty_vec_does_not_crash() {
    assert_eq!(compress(&[], 0), None);
}

#[test]
fn test_compress_decompress() {
    for n in [1usize, 2, 7, 64, 512] {
        let v = short_elements(n);
        let slen = 2 * v.len();
        let compressed = compress(&v, slen).expect("fits");
        assert_eq!(compressed.len(), slen);
        let recovered = decompress(&compressed, n).expect("decodes");
        assert_eq!(recovered, v);
        let recompressed = compress(&recovered, slen).expect("fits");
        assert_eq!(compressed, recompressed);
    }
}

#[test]
fn compress_decompress_large_values() {
    let v: Vec<i16> = vec![2047, -2047, 0, 128, -128, 127, -1, 1000];
    let compressed = compress(&v, 64).expect("fits");
    assert_eq!(decompress(&compressed, v.len()), Some(v));
}

#[test]
fn compress_coefficient_values() {
    assert_eq!(compress_coefficient(0), (9, 0x00));
    assert_eq!(compress_coefficient(5), (9, 0x05));
    assert_eq!(compress_coefficient(-5), (9, 0x85));
    assert_eq!(compress_coefficient(300), (11, 44));
    assert_eq!(compress_coefficient(-300), (11, 0x80 | 44));
}

#[test]
fn compress_exact_bytes() {
    // 3: 0 0000011 1 -> 0x03, then a one bit at position 8
    assert_eq!(compress(&[3], 2), Some(vec![0x03, 0x80]));
    // -1: 1 0000001 1
    assert_eq!(compress(&[-1], 2), Some(vec![0x81, 0x80]));
    // 128: 0 0000000 0 1
    assert_eq!(compress(&[128], 2), Some(vec![0x00, 0x40]));
}

#[test]
fn compress_fails_when_too_long() {
    assert_eq!(compress(&[0, 0], 2), None);
    assert!(compress(&[0, 0], 3).is_some());
    assert_eq!(compress(&[1000], 1), None);
}

#[test]
fn decompress_rejects_set_padding() {
    let mut bytes = compress(&[3, -4], 4).expect("fits");
    assert_eq!(decompress(&bytes, 2), Some(vec![3, -4]));
    bytes[3] |= 0x01;
    assert_eq!(decompress(&bytes, 2), None);
}

#[test]
fn decompress_rejects_negative_zero() {
    // sign 1, low 0, terminator: 1000 0000 1
    assert_eq!(decompress(&[0x80, 0x80], 1), None);
    // negative zero after a valid coefficient
    assert_eq!(decompress(&[0x03, 0xC0, 0x40, 0x00], 2), None);
    assert_eq!(decompress(&[0x00, 0x80], 1), Some(vec![0]));
}

#[test]
fn decompress_rejects_truncated_input() {
    let bytes = compress(&[5, 6, 7], 4).expect("fits");
    assert_eq!(decompress(&bytes, 3), Some(vec![5, 6, 7]));
    assert_eq!(decompress(&bytes[..3], 3), None);
    assert_eq!(decompress(&bytes, 4), None);
    assert_eq!(decompress(&[], 1), None);
}

#[test]
fn decompress_rejects_long_unary_run() {
    // 0 0000000 then 95 zero bits and a one: refused
    let mut bytes = vec![0u8; 14];
    let pos = 8 + 95;
    bytes[pos / 8] |= 0x80 >> (pos % 8);
    assert_eq!(decompress(&bytes, 1), None);
    // 94 zero bits is the longest accepted run
    let mut bytes = vec![0u8; 14];
    let pos = 8 + 94;
    bytes[pos / 8] |= 0x80 >> (pos % 8);
    assert_eq!(decompress(&bytes, 1), Some(vec![94 * 128]));
}

#[test]
fn test_decompress_failures() {
    // no room for a single code
    assert_eq!(decompress(&[0x00], 1), None);
    // unary part never closed
    assert_eq!(decompress(&[0x05, 0x00, 0x00], 1), None);
    // a set bit in the padding
    assert_eq!(decompress(&[0x05, 0x80, 0x01], 1), None);
    assert_eq!(decompress(&[0x05, 0x80, 0x00], 1), Some(vec![5]));
    // negative zero
    assert_eq!(decompress(&[0x80, 0x80, 0x00], 1), None);
}

#[test]
fn decompress_refuses_zero_coefficients() {
    assert_eq!(decompress(&[], 0), None);
    assert_eq!(decompress(&[0u8; 4], 0), None);
}

#[test]
fn decompressed_input_is_what_compression_writes() {
    let x = compress(&[3, -300, 0, 127], 8).expect("fits");
    let v = decompress(&x, 4).expect("decodes");
    assert_eq!(compress(&v, x.len()), Some(x));
}
