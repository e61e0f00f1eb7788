use falcon_rust::encoded::FalconKeyPair;
use falcon_rust::falcon512::{
    finish_signature, keygen, sign_step, verify, SecretKey, SignStep, Signature, N, SIG_BYTES,
    MAX_SIGN_ATTEMPTS,
};
use falcon_rust::hash::hash_to_point;
use falcon_rust::poly::{mul_exact, Q};

fn round_div(x: i64, q: i64) -> i64 {
    (2 * x + q).div_euclid(2 * q)
}

/// `(z1, z2)` by plain rounding of `t = (-c F / q, c f / q)` (a stand-in for
/// the sampler, enough to drive `finish_signature` with real keys).
fn rounded_z(msg: &[u8], sk: &SecretKey, salt: &[u8; 40]) -> (Vec<i16>, Vec<i16>) {
    let mut data = salt.to_vec();
    data.extend_from_slice(msg);
    let c: Vec<i16> = hash_to_point(&data, N).unwrap().iter().map(|&x| x as i16).collect();
    let q = Q as i64;
    let cf = mul_exact(&c, &sk.big_f);
    let cg = mul_exact(&c, &sk.f);
    let z1 = cf.iter().map(|&x| round_div(-x, q) as i16).collect();
    let z2 = cg.iter().map(|&x| round_div(x, q) as i16).collect();
    (z1, z2)
}

/// Retries with fresh salts, as the signing loop does, until the rounded
/// vector is short enough.
fn sign(msg: &[u8], sk: &SecretKey, salt: [u8; 40]) -> Signature {
    for attempt in 0..64u8 {
        let mut s = salt;
        s[39] ^= attempt;
        let (z1, z2) = rounded_z(msg, sk, &s);
        match sign_step(0, msg, &s, sk, &z1, &z2) {
            SignStep::Done(sig) => return sig,
            SignStep::Resample => {}
            SignStep::GiveUp => panic!("attempt zero never gives up"),
        }
    }
    panic!("no short vector found");
}

#[test]
fn keygen_keys_verify_a_finished_signature() {
    let (sk, pk) = keygen([42u8; 32]).expect("key generation");
    let msg = b"Hello, Falcon!";
    let sig = sign(msg, &sk, [1u8; 40]);
    assert_eq!(sig.to_bytes().len(), SIG_BYTES);
    assert_eq!(sig.to_bytes()[0], 0x39);
    assert!(verify(msg, &sig, &pk));
    assert!(!verify(b"Wrong message", &sig, &pk));
    let (_sk2, other_pk) = keygen([43u8; 32]).expect("key generation");
    assert!(!verify(msg, &sig, &other_pk));
}

#[test]
fn finished_signatures_for_empty_and_long_messages() {
    let (sk, pk) = keygen([42u8; 32]).expect("key generation");
    let sig = sign(b"", &sk, [2u8; 40]);
    assert!(verify(b"", &sig, &pk));
    let long = [0xABu8; 1000];
    let sig = sign(&long, &sk, [2u8; 40]);
    assert!(verify(&long, &sig, &pk));
}

#[test]
fn finishing_is_deterministic() {
    let (sk, _pk) = keygen([42u8; 32]).expect("key generation");
    let a = sign(b"same", &sk, [5u8; 40]).to_bytes();
    let b = sign(b"same", &sk, [5u8; 40]).to_bytes();
    assert_eq!(a, b);
}

#[test]
fn finish_refuses_long_vectors() {
    let (sk, _pk) = keygen([42u8; 32]).expect("key generation");
    let z = vec![100i16; N];
    assert!(finish_signature(b"m", &[0u8; 40], &sk, &z, &z).is_none());
}

#[test]
fn finished_signature_survives_encoding() {
    let (sk, pk) = keygen([99u8; 32]).expect("key generation");
    let sig = sign(b"Test serialization", &sk, [3u8; 40]);
    let back = Signature::from_bytes(&sig.to_bytes()).expect("decodes");
    assert!(verify(b"Test serialization", &back, &pk));
    let sk_back = SecretKey::from_bytes(&sk.to_bytes()).expect("decodes");
    let sig2 = sign(b"Test serialization", &sk_back, [4u8; 40]);
    assert!(verify(b"Test serialization", &sig2, &pk));
}

#[test]
fn key_pair_matches_keygen() {
    let kp = FalconKeyPair::new(&[42u8; 32]).expect("key pair");
    let (sk, pk) = keygen([42u8; 32]).expect("key generation");
    assert_eq!(kp.public_key(), pk.to_bytes());
    assert_eq!(kp.secret_key(), sk.to_bytes());
}

#[test]
fn sign_step_gives_up_at_the_cap() {
    let (sk, _pk) = keygen([42u8; 32]).expect("key generation");
    let (z1, z2) = rounded_z(b"m", &sk, &[1u8; 40]);
    assert!(matches!(
        sign_step(MAX_SIGN_ATTEMPTS, b"m", &[1u8; 40], &sk, &z1, &z2),
        SignStep::GiveUp
    ));
    let long = vec![100i16; N];
    assert!(matches!(sign_step(0, b"m", &[1u8; 40], &sk, &long, &long), SignStep::Resample));
    assert!(finish_signature(b"m", &[1u8; 40], &sk, &long, &long).is_none());
}
