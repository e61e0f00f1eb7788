//! Operations on keys and signatures handed over as bytes.
use vstd::prelude::*;
use crate::falcon512::{
    keygen, verify, key_relation, public_key_decoding, signature_decoding, verify_spec,
    keygen_succeeds, gen_f, gen_g, gen_big_f, derive_h, derive_big_g, DecodeError, PublicKey,
    SecretKey, Signature,
};

verus! {

/// A key pair made from a seed.
pub struct FalconKeyPair {
    pub secret_key: SecretKey,
    pub public_key: PublicKey,
}

/// A signature, handed out as bytes.
pub struct FalconSignature {
    pub signature: Signature,
}

/// Why a key pair could not be made.
#[derive(Debug, Clone, Copy, PartialEq, Eq, Structural)]
pub enum KeyPairError {
    /// The seed is not 32 bytes long.
    BadSeedLength,
    /// The generator's output did not make a key pair.
    KeyGeneration,
}

impl FalconKeyPair {
    /// Generates a key pair from a 32-byte seed.
    pub fn new(seed: &[u8]) -> (r: Result<FalconKeyPair, KeyPairError>)
        ensures
            (r == Err::<FalconKeyPair, KeyPairError>(KeyPairError::BadSeedLength)) <==> seed@.len()
                != 32,
            seed@.len() == 32 ==> (r is Ok <==> keygen_succeeds(seed@)),
            r matches Ok(kp) ==> {
                &&& kp.secret_key.f@ == gen_f(seed@)
                &&& kp.secret_key.g@ == gen_g(seed@)
                &&& kp.secret_key.big_f@ == gen_big_f(seed@)
                &&& kp.public_key.h@ == derive_h(kp.secret_key.f@, kp.secret_key.g@)
                &&& kp.secret_key.big_g@ == derive_big_g(kp.public_key.h@, kp.secret_key.big_f@)
                &&& kp.secret_key.wf()
                &&& kp.public_key.wf()
                &&& key_relation(kp.public_key.h@, kp.secret_key.f@, kp.secret_key.g@)
            },
    {
        if seed.len() != 32 {
            return Err(KeyPairError::BadSeedLength);
        }
        let seed_array: [u8; 32] = [
            seed[0],
            seed[1],
            seed[2],
            seed[3],
            seed[4],
            seed[5],
            seed[6],
            seed[7],
            seed[8],
            seed[9],
            seed[10],
            seed[11],
            seed[12],
            seed[13],
            seed[14],
            seed[15],
            seed[16],
            seed[17],
            seed[18],
            seed[19],
            seed[20],
            seed[21],
            seed[22],
            seed[23],
            seed[24],
            seed[25],
            seed[26],
            seed[27],
            seed[28],
            seed[29],
            seed[30],
            seed[31],
        ];
        assert(seed_array@ =~= seed@);
        match keygen(seed_array) {
            Some((secret_key, public_key)) => Ok(FalconKeyPair { secret_key, public_key }),
            None => Err(KeyPairError::KeyGeneration),
        }
    }

    /// The encoded public key.
    pub fn public_key(&self) -> (r: Vec<u8>)
        requires
            self.public_key.wf(),
        ensures
            crate::falcon512::public_key_encodes(r@, self.public_key.h@),
    {
        self.public_key.to_bytes()
    }

    /// The encoded secret key.
    pub fn secret_key(&self) -> (r: Vec<u8>)
        requires
            self.secret_key.wf(),
        ensures
            crate::falcon512::secret_key_encodes(r@, self.secret_key),
    {
        self.secret_key.to_bytes()
    }
}

impl FalconSignature {
    /// The encoded signature.
    pub fn bytes(&self) -> (r: Vec<u8>)
        ensures
            r@ == crate::falcon512::signature_bytes(self.signature.salt@, self.signature.payload@),
    {
        self.signature.to_bytes()
    }
}

/// Verifies an encoded signature of `message` under an encoded public key:
/// an error if either does not decode (the signature is looked at first),
/// else whether the signature is valid.
pub fn verify_signature(message: &[u8], signature_bytes: &[u8], public_key_bytes: &[u8]) -> (r:
    Result<bool, DecodeError>)
    ensures
        match signature_decoding(signature_bytes@) {
            Err(e) => r == Err::<bool, DecodeError>(e),
            Ok((salt, payload)) => match public_key_decoding(public_key_bytes@) {
                Err(e) => r == Err::<bool, DecodeError>(e),
                Ok(h) => r == Ok::<bool, DecodeError>(verify_spec(message@, salt, payload, h)),
            },
        },
{
    let signature = match Signature::from_bytes(signature_bytes) {
        Ok(s) => s,
        Err(e) => {
            return Err(e);
        },
    };
    let public_key = match PublicKey::from_bytes(public_key_bytes) {
        Ok(p) => p,
        Err(e) => {
            return Err(e);
        },
    };
    Ok(verify(message, &signature, &public_key))
}

} // verus!
