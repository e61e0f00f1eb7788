use falcon_rust::falcon512::{keygen, DecodeError, PublicKey, SecretKey, SK_BYTES, PK_BYTES};
use falcon_rust::poly::{mul_exact, Q};
use std::time::Instant;

#[test]
fn test_keygen_memory_usage() {
    println!("\n=== Falcon-512 Key Generation Memory Usage ===");

    let seed = [0u8; 32];
    let _ = keygen(seed);

    let seed = [42u8; 32];
    let (secret_key, public_key) = keygen(seed).expect("key generation");

    let sk_size = std::mem::size_of_val(&secret_key);
    let pk_size = std::mem::size_of_val(&public_key);
    println!("\nStack sizes:");
    println!("  SecretKey struct: {} bytes", sk_size);
    println!("  PublicKey struct: {} bytes", pk_size);

    let sk_bytes = secret_key.to_bytes();
    let pk_bytes = public_key.to_bytes();
    println!("\nSerialized sizes:");
    println!("  SecretKey: {} bytes", sk_bytes.len());
    println!("  PublicKey: {} bytes", pk_bytes.len());
}

#[test]
fn test_keygen_performance() {
    let iterations = 10;
    let mut total_duration = std::time::Duration::ZERO;

    println!("\n=== Falcon-512 Key Generation Performance ===");

    for i in 0..iterations {
        let seed = [(i as u8).wrapping_mul(17); 32];
        let start = Instant::now();
        let (_secret_key, _public_key) = keygen(seed).expect("key generation");
        let duration = start.elapsed();
        total_duration += duration;
        println!("  Iteration {}: {:?}", i + 1, duration);
    }

    let avg_duration = total_duration / iterations;
    println!("  Average: {:?}", avg_duration);
    println!("  Total: {:?}", total_duration);
}

#[test]
fn keygen_satisfies_ntru_equation() {
    let (sk, _pk) = keygen([42u8; 32]).expect("key generation");
    let fg = mul_exact(&sk.f, &sk.big_g);
    let gf = mul_exact(&sk.g, &sk.big_f);
    assert_eq!(fg[0] - gf[0], Q as i64);
    for k in 1..512 {
        assert_eq!(fg[k] - gf[k], 0);
    }
}

#[test]
fn keygen_is_deterministic_in_the_seed() {
    let (sk1, pk1) = keygen([7u8; 32]).expect("key generation");
    let (sk2, pk2) = keygen([7u8; 32]).expect("key generation");
    let (_sk3, pk3) = keygen([8u8; 32]).expect("key generation");
    assert_eq!(sk1.to_bytes(), sk2.to_bytes());
    assert_eq!(pk1.to_bytes(), pk2.to_bytes());
    assert_ne!(pk1.to_bytes(), pk3.to_bytes());
}

#[test]
fn key_encodings_have_falcon_layout() {
    let (sk, pk) = keygen([99u8; 32]).expect("key generation");
    let skb = sk.to_bytes();
    let pkb = pk.to_bytes();
    assert_eq!(skb.len(), SK_BYTES);
    assert_eq!(skb.len(), 1281);
    assert_eq!(skb[0], 0x59);
    assert_eq!(pkb.len(), PK_BYTES);
    assert_eq!(pkb.len(), 897);
    assert_eq!(pkb[0], 0x09);
}

#[test]
fn public_key_round_trip() {
    let (_sk, pk) = keygen([99u8; 32]).expect("key generation");
    let bytes = pk.to_bytes();
    let back = PublicKey::from_bytes(&bytes).expect("decodes");
    assert_eq!(back.h, pk.h);
    assert_eq!(back.to_bytes(), bytes);
}

#[test]
fn secret_key_round_trip() {
    let (sk, pk) = keygen([99u8; 32]).expect("key generation");
    let bytes = sk.to_bytes();
    let back = SecretKey::from_bytes(&bytes).expect("decodes");
    assert_eq!(back.f, sk.f);
    assert_eq!(back.g, sk.g);
    assert_eq!(back.big_f, sk.big_f);
    assert_eq!(back.big_g, sk.big_g);
    assert_eq!(back.to_bytes(), bytes);
    assert_eq!(pk.h.len(), 512);
}

#[test]
fn secret_key_decoding_errors() {
    assert!(matches!(SecretKey::from_bytes(&[0x59u8; 10]), Err(DecodeError::BadLength)));
    let (sk, _pk) = keygen([5u8; 32]).expect("key generation");
    let good = sk.to_bytes();
    let mut bytes = good.clone();
    bytes[0] = 0x5A;
    assert!(matches!(SecretKey::from_bytes(&bytes), Err(DecodeError::BadHeader)));
    // first coefficient of f set to 100000 in six bits: -32, never written
    let mut bytes = good.clone();
    bytes[1] = (bytes[1] & 0x03) | 0x80;
    assert!(matches!(SecretKey::from_bytes(&bytes), Err(DecodeError::BadCoefficient)));
    // a changed F no longer completes the key equation
    let mut bytes = good.clone();
    bytes[1000] ^= 0x01;
    assert!(matches!(SecretKey::from_bytes(&bytes), Err(DecodeError::InvalidKey)));
    // all zero: f = 0 is not invertible
    let mut bytes = vec![0u8; SK_BYTES];
    bytes[0] = 0x59;
    assert!(matches!(SecretKey::from_bytes(&bytes), Err(DecodeError::InvalidKey)));
}
