//! Falcon-512 post-quantum signatures: signature compression, key and
//! signature encodings, arithmetic modulo q, key generation and signature
//! verification, and the line protocol of the signing device.
pub mod bits;
pub mod encoding;
pub mod hex;
pub mod poly;
pub mod hash;
pub mod falcon512;
pub mod kgen;
pub mod protocol;
pub mod encoded;
