use falcon_rust::encoding::compress;
use falcon_rust::falcon512::{verify, DecodeError, PublicKey, Signature, PAYLOAD_BYTES, SIG_BYTES};
use falcon_rust::hash::hash_to_point;

/// A key and signature made to fit: with `h` equal to the hash point of the
/// salted message and `s2 = 1`, `s1 = c - s2 * h` is zero.
fn matching_pair(msg: &[u8], salt: &[u8]) -> (PublicKey, Signature) {
    let mut data = salt.to_vec();
    data.extend_from_slice(msg);
    let c = hash_to_point(&data, 512).expect("hash");
    let mut s2 = vec![0i16; 512];
    s2[0] = 1;
    let payload = compress(&s2, PAYLOAD_BYTES).expect("fits");
    (PublicKey { h: c }, Signature { salt: salt.to_vec(), payload })
}

#[test]
fn verify_accepts_matching_pair() {
    let (pk, sig) = matching_pair(b"Hello, Falcon!", &[3u8; 40]);
    assert!(verify(b"Hello, Falcon!", &sig, &pk));
}

#[test]
fn verify_rejects_other_message() {
    let (pk, sig) = matching_pair(b"Hello, Falcon!", &[3u8; 40]);
    assert!(!verify(b"Wrong message", &sig, &pk));
}

#[test]
fn verify_accepts_empty_and_long_messages() {
    let (pk, sig) = matching_pair(b"", &[9u8; 40]);
    assert!(verify(b"", &sig, &pk));
    let long = [0xABu8; 1000];
    let (pk, sig) = matching_pair(&long, &[9u8; 40]);
    assert!(verify(&long, &sig, &pk));
}

#[test]
fn verify_rejects_flipped_byte_without_panicking() {
    let (pk, sig) = matching_pair(b"Hello, Falcon!", &[3u8; 40]);
    let mut bytes = sig.to_bytes();
    bytes[50] ^= 0xFF;
    match Signature::from_bytes(&bytes) {
        Ok(bad) => assert!(!verify(b"Hello, Falcon!", &bad, &pk)),
        Err(_) => {}
    }
}

#[test]
fn verify_rejects_malformed_inputs() {
    let (pk, sig) = matching_pair(b"m", &[1u8; 40]);
    let short = Signature { salt: vec![1u8; 39], payload: sig.payload.clone() };
    assert!(!verify(b"m", &short, &pk));
    let big_h = PublicKey { h: vec![12289u16; 512] };
    assert!(!verify(b"m", &sig, &big_h));
    let zeros = Signature { salt: vec![1u8; 40], payload: vec![0u8; PAYLOAD_BYTES] };
    assert!(!verify(b"m", &zeros, &pk));
}

#[test]
fn signature_round_trip() {
    let (_pk, sig) = matching_pair(b"round trip", &[5u8; 40]);
    let bytes = sig.to_bytes();
    assert_eq!(bytes.len(), SIG_BYTES);
    assert_eq!(bytes[0], 0x39);
    let back = Signature::from_bytes(&bytes).expect("decodes");
    assert_eq!(back.salt, sig.salt);
    assert_eq!(back.payload, sig.payload);
}

#[test]
fn signature_decoding_errors() {
    assert!(matches!(Signature::from_bytes(&[0x39u8; 10]), Err(DecodeError::BadLength)));
    let mut bytes = vec![0u8; SIG_BYTES];
    bytes[0] = 0x3A;
    assert!(matches!(Signature::from_bytes(&bytes), Err(DecodeError::BadHeader)));
}

#[test]
fn public_key_decoding_errors() {
    assert!(matches!(PublicKey::from_bytes(&[0x09u8; 10]), Err(DecodeError::BadLength)));
    let mut bytes = vec![0u8; 897];
    assert!(matches!(PublicKey::from_bytes(&bytes), Err(DecodeError::BadHeader)));
    bytes[0] = 0x09;
    assert!(PublicKey::from_bytes(&bytes).is_ok());
    // first coefficient all ones: 16383, not below q
    bytes[1] = 0xFF;
    bytes[2] = 0xFC;
    assert!(matches!(PublicKey::from_bytes(&bytes), Err(DecodeError::BadCoefficient)));
}

#[test]
fn hash_to_point_is_reduced_and_deterministic() {
    let a = hash_to_point(b"abc", 512).expect("hash");
    let b = hash_to_point(b"abc", 512).expect("hash");
    let c = hash_to_point(b"abd", 512).expect("hash");
    assert_eq!(a.len(), 512);
    assert!(a.iter().all(|&x| x < 12289));
    assert_eq!(a, b);
    assert_ne!(a, c);
}

#[test]
fn verify_rejects_every_single_bit_flip() {
    let msg = b"Hello, Falcon!".to_vec();
    let (pk, sig) = matching_pair(&msg, &[3u8; 40]);
    for i in 0..msg.len() {
        for bit in 0..8 {
            let mut m = msg.clone();
            m[i] ^= 1 << bit;
            assert!(!verify(&m, &sig, &pk));
        }
    }
    for i in 0..40 {
        let mut bad = Signature { salt: sig.salt.clone(), payload: sig.payload.clone() };
        bad.salt[i] ^= 0x01;
        assert!(!verify(&msg, &bad, &pk));
    }
}
