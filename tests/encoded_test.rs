use falcon_rust::encoded::{verify_signature, FalconKeyPair, FalconSignature, KeyPairError};
use falcon_rust::encoding::compress;
use falcon_rust::falcon512::{DecodeError, PublicKey, Signature, PAYLOAD_BYTES};
use falcon_rust::hash::hash_to_point;

#[test]
fn key_pair_from_seed() {
    assert!(matches!(FalconKeyPair::new(&[1u8; 31]), Err(KeyPairError::BadSeedLength)));
    let kp = FalconKeyPair::new(&[42u8; 32]).expect("key pair");
    assert_eq!(kp.public_key().len(), 897);
    assert_eq!(kp.secret_key().len(), 1281);
    let again = FalconKeyPair::new(&[42u8; 32]).expect("key pair");
    assert_eq!(kp.public_key(), again.public_key());
}

#[test]
fn verify_signature_from_bytes() {
    let salt = [7u8; 40];
    let msg = b"bytes in, verdict out";
    let mut data = salt.to_vec();
    data.extend_from_slice(msg);
    let c = hash_to_point(&data, 512).expect("hash");
    let mut s2 = vec![0i16; 512];
    s2[0] = 1;
    let payload = compress(&s2, PAYLOAD_BYTES).expect("fits");
    let pk = PublicKey { h: c }.to_bytes();
    let sig = FalconSignature { signature: Signature { salt: salt.to_vec(), payload } }.bytes();
    assert_eq!(verify_signature(msg, &sig, &pk), Ok(true));
    assert_eq!(verify_signature(b"other", &sig, &pk), Ok(false));
    assert_eq!(verify_signature(msg, &sig[..10], &pk), Err(DecodeError::BadLength));
    assert_eq!(verify_signature(msg, &sig, &pk[..10]), Err(DecodeError::BadLength));
}
