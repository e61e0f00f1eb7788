//! Falcon-512: keys, signatures, their encodings, and verification.
use vstd::prelude::*;
use crate::bits::{bytes_bits, bits_value, read_fields, write_fields, lemma_bits_value_agree, lemma_bits_value_bound};
use crate::encoding::{
    compress, compress_spec, decompress, decompress_spec, zero_bytes, short_coefficients,
    lemma_compress_round_trip, lemma_bytes_bits_injective,
};
use crate::hash::{hash_to_point, hash_attempt};
use crate::kgen::{generate_encoded_keys, generated_sign_key, lsb_signed_fields, read_lsb_signed};
use crate::poly::{Q, mul_mod_q, mul_exact, poly_mul, ints_u16, ints_i16, reduced, mul_q, one_q, pow_q, pow_mod_q, lemma_mul_q_view};

verus! {

/// Ring degree.
pub const N: usize = 512;

/// Bytes of salt at the start of a signature.
pub const SALT_BYTES: usize = 40;

/// Bytes of an encoded signature.
pub const SIG_BYTES: usize = 666;

/// Bytes of compressed coefficients in a signature.
pub const PAYLOAD_BYTES: usize = 625;

/// Bytes of an encoded public key.
pub const PK_BYTES: usize = 897;

/// Bytes of an encoded secret key.
pub const SK_BYTES: usize = 1281;

/// First byte of an encoded signature.
pub const SIG_HEADER: u8 = 0x39;

/// First byte of an encoded public key.
pub const PK_HEADER: u8 = 0x09;

/// First byte of an encoded secret key.
pub const SK_HEADER: u8 = 0x59;

/// Largest squared norm of an accepted signature vector `(s1, s2)`.
pub const SIG_BOUND: u64 = 34034726;

/// Bits per coefficient of `h` in a public key.
pub const H_BITS: usize = 14;

/// Bits per coefficient of `f` and `g` in a secret key.
pub const FG_BITS: usize = 6;

/// Bits per coefficient of `F` in a secret key.
pub const BIG_F_BITS: usize = 8;

/// A public key: the polynomial `h = g / f` modulo `q`.
pub struct PublicKey {
    pub h: Vec<u16>,
}

/// A secret key: the short polynomials `f`, `g`, `F` and `G`, with
/// `f * G - g * F = q` in `Z[x] / (x^n + 1)`.
pub struct SecretKey {
    pub f: Vec<i16>,
    pub g: Vec<i16>,
    pub big_f: Vec<i16>,
    pub big_g: Vec<i16>,
}

/// A signature: a salt and the compressed polynomial `s2`.
pub struct Signature {
    pub salt: Vec<u8>,
    pub payload: Vec<u8>,
}

/// Why an encoding was refused.
#[derive(Debug, Clone, Copy, PartialEq, Eq, Structural)]
pub enum DecodeError {
    /// The input does not have the length of the encoding.
    BadLength,
    /// The first byte is not the header of the encoding.
    BadHeader,
    /// A coefficient lies outside its range.
    BadCoefficient,
    /// The polynomials do not make a key: `f` is not invertible modulo `q`,
    /// or no short `G` completes `f * G - g * F = q`.
    InvalidKey,
}

/// Every value lies strictly between `-bound` and `bound`.
pub open spec fn bounded(s: Seq<i16>, bound: int) -> bool {
    forall|i: int| 0 <= i < s.len() ==> -bound < #[trigger] s[i] < bound
}

/// `f * G - g * F` is the constant `q`.
pub open spec fn ntru_equation(f: Seq<i16>, g: Seq<i16>, big_f: Seq<i16>, big_g: Seq<i16>) -> bool {
    let fg = poly_mul(ints_i16(f), ints_i16(big_g));
    let gf = poly_mul(ints_i16(g), ints_i16(big_f));
    forall|k: int|
        0 <= k < f.len() ==> #[trigger] fg[k] - gf[k] == if k == 0 {
            Q as int
        } else {
            0
        }
}

/// Residues modulo `q` of a signed polynomial.
pub open spec fn mod_q(s: Seq<i16>) -> Seq<u16> {
    s.map_values(|x: i16| ((x as int) % (Q as int)) as u16)
}

/// `h * f = g` modulo `q`.
pub open spec fn key_relation(h: Seq<u16>, f: Seq<i16>, g: Seq<i16>) -> bool {
    let hf = poly_mul(ints_u16(h), ints_u16(mod_q(f)));
    forall|k: int| 0 <= k < h.len() ==> #[trigger] hf[k] % (Q as int) == (g[k] as int) % (Q as int)
}

impl PublicKey {
    pub open spec fn wf(&self) -> bool {
        self.h@.len() == N && reduced(self.h@)
    }
}

impl SecretKey {
    pub open spec fn wf(&self) -> bool {
        &&& self.f@.len() == N
        &&& self.g@.len() == N
        &&& self.big_f@.len() == N
        &&& self.big_g@.len() == N
        &&& bounded(self.f@, 32)
        &&& bounded(self.g@, 32)
        &&& bounded(self.big_f@, 128)
        &&& bounded(self.big_g@, 128)
        &&& ntru_equation(self.f@, self.g@, self.big_f@, self.big_g@)
    }
}

impl Signature {
    pub open spec fn wf(&self) -> bool {
        self.salt@.len() == SALT_BYTES && self.payload@.len() == PAYLOAD_BYTES
    }
}

/// The bits of an encoded public key hold `h`: 14 bits per coefficient after
/// the header byte.
pub open spec fn public_key_encodes(bytes: Seq<u8>, h: Seq<u16>) -> bool {
    &&& bytes.len() == PK_BYTES
    &&& bytes[0] == PK_HEADER
    &&& forall|i: int|
        0 <= i < N ==> #[trigger] bits_value(bytes_bits(bytes), 8 + H_BITS * i, H_BITS as nat)
            == h[i]
}

/// What decoding a public key yields.
pub open spec fn public_key_decoding(bytes: Seq<u8>) -> Result<Seq<u16>, DecodeError> {
    if bytes.len() != PK_BYTES {
        Err(DecodeError::BadLength)
    } else if bytes[0] != PK_HEADER {
        Err(DecodeError::BadHeader)
    } else {
        let h = Seq::new(
            N as nat,
            |i: int| bits_value(bytes_bits(bytes), 8 + H_BITS * i, H_BITS as nat) as u16,
        );
        if reduced(h) {
            Ok(h)
        } else {
            Err(DecodeError::BadCoefficient)
        }
    }
}

/// Two's complement of `v` on `w` bits.
pub open spec fn twos(v: i16, w: nat) -> nat {
    if v < 0 {
        (v + vstd::arithmetic::power2::pow2(w)) as nat
    } else {
        v as nat
    }
}

/// The bits of an encoded secret key hold `f`, `g` and `F` in two's
/// complement after the header byte.
pub open spec fn secret_key_encodes(bytes: Seq<u8>, sk: SecretKey) -> bool {
    let b = bytes_bits(bytes);
    &&& bytes.len() == SK_BYTES
    &&& bytes[0] == SK_HEADER
    &&& forall|i: int|
        0 <= i < N ==> #[trigger] bits_value(b, 8 + FG_BITS * i, FG_BITS as nat) == twos(
            sk.f@[i],
            FG_BITS as nat,
        )
    &&& forall|i: int|
        0 <= i < N ==> #[trigger] bits_value(b, 8 + FG_BITS * N + FG_BITS * i, FG_BITS as nat)
            == twos(sk.g@[i], FG_BITS as nat)
    &&& forall|i: int|
        0 <= i < N ==> #[trigger] bits_value(
            b,
            8 + 2 * FG_BITS * N + BIG_F_BITS * i,
            BIG_F_BITS as nat,
        ) == twos(sk.big_f@[i], BIG_F_BITS as nat)
}

/// The bytes of an encoded signature.
pub open spec fn signature_bytes(salt: Seq<u8>, payload: Seq<u8>) -> Seq<u8> {
    seq![SIG_HEADER] + salt + payload
}

/// What decoding a signature yields: its salt and compressed payload.
pub open spec fn signature_decoding(bytes: Seq<u8>) -> Result<(Seq<u8>, Seq<u8>), DecodeError> {
    if bytes.len() != SIG_BYTES {
        Err(DecodeError::BadLength)
    } else if bytes[0] != SIG_HEADER {
        Err(DecodeError::BadHeader)
    } else {
        Ok((bytes.subrange(1, 1 + SALT_BYTES), bytes.subrange(1 + SALT_BYTES, SIG_BYTES as int)))
    }
}

/// A residue in `[0, q)` moved to `(-q/2, q/2]`.
pub open spec fn center(v: int) -> int {
    if v > (Q as int) / 2 {
        v - Q as int
    } else {
        v
    }
}

/// Sum of the squares of the values of `s`.
pub open spec fn sq_norm(s: Seq<int>) -> int
    decreases s.len(),
{
    if s.len() == 0 {
        0
    } else {
        sq_norm(s.drop_last()) + s.last() * s.last()
    }
}

/// `s1 = c - s2 * h` modulo `q`, centred.
pub open spec fn recover_s1(c: Seq<u16>, s2: Seq<i16>, h: Seq<u16>) -> Seq<int> {
    let p = poly_mul(ints_u16(mod_q(s2)), ints_u16(h));
    Seq::new(c.len(), |i: int| center((c[i] - p[i]) % (Q as int)))
}

/// Whether `salt` and `payload` sign `msg` under `h`: the payload decompresses
/// to `s2`, and with `c` the hash of the salted message, `(c - s2 * h, s2)` is
/// short enough.
pub open spec fn verify_spec(msg: Seq<u8>, salt: Seq<u8>, payload: Seq<u8>, h: Seq<u16>) -> bool {
    &&& h.len() == N
    &&& reduced(h)
    &&& salt.len() == SALT_BYTES
    &&& payload.len() == PAYLOAD_BYTES
    &&& match decompress_spec(payload, N as nat) {
        None => false,
        Some(s2) => match hash_attempt(salt + msg, N as nat, 0) {
            None => false,
            Some(c) => sq_norm(recover_s1(c, s2, h)) + sq_norm(ints_i16(s2)) <= SIG_BOUND,
        },
    }
}

/// Residues modulo `q` of a signed polynomial.
fn to_mod_q(s: &[i16]) -> (r: Vec<u16>)
    ensures
        r@ == mod_q(s@),
        reduced(r@),
{
    let mut r: Vec<u16> = Vec::with_capacity(s.len());
    let mut i: usize = 0;
    while i < s.len()
        invariant
            i <= s@.len(),
            r@ == mod_q(s@.take(i as int)),
            reduced(r@),
        decreases s@.len() - i,
    {
        let x = s[i] as i32;
        let m = if x < 0 {
            let t = (-x) % (Q as i32);
            if t == 0 {
                0
            } else {
                Q as i32 - t
            }
        } else {
            x % (Q as i32)
        };
        assert(m as int == (s@[i as int] as int) % (Q as int));
        r.push(m as u16);
        i += 1;
        assert(r@ =~= mod_q(s@.take(i as int)));
    }
    assert(s@.take(s@.len() as int) =~= s@);
    r
}

/// Sum of squares of a signed polynomial.
fn sq_norm_i16(s: &[i16]) -> (r: u64)
    requires
        s@.len() <= 1024,
    ensures
        r as int == sq_norm(ints_i16(s@)),
{
    let mut acc: u64 = 0;
    let mut i: usize = 0;
    while i < s.len()
        invariant
            i <= s@.len(),
            s@.len() <= 1024,
            acc as int == sq_norm(ints_i16(s@.take(i as int))),
            acc <= i * 0x4000_0000,
        decreases s@.len() - i,
    {
        let x = s[i] as i64;
        assert(0 <= x * x <= 0x4000_0000) by (nonlinear_arith)
            requires
                -0x8000 <= x <= 0x7fff,
        ;
        let sq = (x * x) as u64;
        assert(ints_i16(s@.take(i + 1)).drop_last() =~= ints_i16(s@.take(i as int)));
        acc = acc + sq;
        i += 1;
    }
    assert(s@.take(s@.len() as int) =~= s@);
    acc
}

/// Checks that `pk` is well formed.
fn public_key_ok(pk: &PublicKey) -> (r: bool)
    ensures
        r == pk.wf(),
{
    if pk.h.len() != N {
        return false;
    }
    let mut i: usize = 0;
    while i < N
        invariant
            pk.h@.len() == N,
            i <= N,
            forall|k: int| 0 <= k < i ==> #[trigger] pk.h@[k] < Q,
        decreases N - i,
    {
        if pk.h[i] >= Q as u16 {
            return false;
        }
        i += 1;
    }
    true
}

/// Whether `sig` is a valid signature of `msg` under `pk`. Never fails: any
/// malformed key or signature gives `false`.
pub fn verify(msg: &[u8], sig: &Signature, pk: &PublicKey) -> (r: bool)
    ensures
        r == verify_spec(msg@, sig.salt@, sig.payload@, pk.h@),
{
    if !public_key_ok(pk) || sig.salt.len() != SALT_BYTES || sig.payload.len() != PAYLOAD_BYTES {
        return false;
    }
    let s2 = match decompress(&sig.payload, N) {
        Some(s2) => s2,
        None => {
            return false;
        },
    };
    let mut data: Vec<u8> = Vec::new();
    let mut i: usize = 0;
    while i < SALT_BYTES
        invariant
            i <= SALT_BYTES,
            sig.salt@.len() == SALT_BYTES,
            data@ == sig.salt@.take(i as int),
        decreases SALT_BYTES - i,
    {
        data.push(sig.salt[i]);
        i += 1;
        assert(data@ =~= sig.salt@.take(i as int));
    }
    let mut j: usize = 0;
    while j < msg.len()
        invariant
            j <= msg@.len(),
            sig.salt@.len() == SALT_BYTES,
            data@ == sig.salt@ + msg@.take(j as int),
        decreases msg@.len() - j,
    {
        data.push(msg[j]);
        j += 1;
        assert(data@ =~= sig.salt@ + msg@.take(j as int));
    }
    assert(msg@.take(msg@.len() as int) =~= msg@);
    let c = match hash_to_point(&data, N) {
        Some(c) => c,
        None => {
            return false;
        },
    };
    let s2q = to_mod_q(&s2);
    let p = mul_mod_q(&s2q, &pk.h);
    let mut s1: Vec<i16> = Vec::with_capacity(N);
    let ghost want = recover_s1(c@, s2@, pk.h@);
    let mut k: usize = 0;
    while k < N
        invariant
            k <= N,
            c@.len() == N,
            p@.len() == N,
            reduced(c@),
            reduced(p@),
            want == recover_s1(c@, s2@, pk.h@),
            forall|t: int|
                0 <= t < N ==> #[trigger] p@[t] as int == poly_mul(
                    ints_u16(mod_q(s2@)),
                    ints_u16(pk.h@),
                )[t] % (Q as int),
            s1@.len() == k,
            forall|t: int| 0 <= t < k ==> #[trigger] s1@[t] as int == want[t],
        decreases N - k,
    {
        let d = (c[k] as u32 + Q - p[k] as u32) % Q;
        let v: i16 = if d > Q / 2 {
            d as i16 - Q as i16
        } else {
            d as i16
        };
        proof {
            let big = poly_mul(ints_u16(mod_q(s2@)), ints_u16(pk.h@))[k as int];
            let qi = Q as int;
            let cp = c@[k as int] - p@[k as int];
            vstd::arithmetic::div_mod::lemma_fundamental_div_mod(big, qi);
            assert(c@[k as int] - big == qi * (-(big / qi)) + cp) by (nonlinear_arith)
                requires
                    big == qi * (big / qi) + big % qi,
                    p@[k as int] == big % qi,
                    cp == c@[k as int] - p@[k as int],
            ;
            vstd::arithmetic::div_mod::lemma_mod_multiples_vanish(-(big / qi), cp, qi);
            vstd::arithmetic::div_mod::lemma_mod_multiples_vanish(1, cp, qi);
            assert(d as int == (c@[k as int] - big) % qi);
        }
        s1.push(v);
        k += 1;
    }
    let n1 = sq_norm_i16(&s1);
    let n2 = sq_norm_i16(&s2);
    proof {
        assert(ints_i16(s1@) =~= want);
    }
    n1 <= SIG_BOUND && n2 <= SIG_BOUND - n1
}

/// Sets the first byte of `out`, leaving every later bit as it was.
fn set_header(out: &mut Vec<u8>, header: u8)
    requires
        old(out)@.len() > 0,
    ensures
        final(out)@ == old(out)@.update(0, header),
        forall|k: int|
            8 <= k < 8 * old(out)@.len() ==> #[trigger] bytes_bits(final(out)@)[k] == bytes_bits(
                old(out)@,
            )[k],
{
    out.set(0, header);
}

proof fn lemma_fields_kept(a: Seq<bool>, b: Seq<bool>, off: int, w: nat, count: int)
    requires
        0 <= off,
        forall|k: int| off <= k < off + w * count ==> #[trigger] a[k] == b[k],
    ensures
        forall|i: int|
            0 <= i < count ==> #[trigger] bits_value(a, off + w * i, w) == bits_value(
                b,
                off + w * i,
                w,
            ),
{
    assert forall|i: int| 0 <= i < count implies #[trigger] bits_value(a, off + w * i, w)
        == bits_value(b, off + w * i, w) by {
        assert(0 <= w * i && w * i + w <= w * count) by (nonlinear_arith)
            requires
                0 <= i < count,
        ;
        assert forall|t: int| 0 <= t < w implies #[trigger] a[(off + w * i) + t] == b[(off + w * i)
            + t] by {
            assert(a[off + w * i + t] == b[off + w * i + t]);
        }
        lemma_bits_value_agree(a, off + w * i, b, off + w * i, w);
    }
}

impl PublicKey {
    /// Encodes the key: the header byte, then 14 bits per coefficient.
    pub fn to_bytes(&self) -> (r: Vec<u8>)
        requires
            self.wf(),
        ensures
            public_key_encodes(r@, self.h@),
    {
        let mut vals: Vec<u32> = Vec::with_capacity(N);
        let mut i: usize = 0;
        assert((1u32 << 14u32) == 16384u32) by (bit_vector);
        while i < N
            invariant
                i <= N,
                self.wf(),
                vals@.len() == i,
                (1u32 << 14u32) == 16384u32,
                forall|k: int| 0 <= k < i ==> #[trigger] vals@[k] == self.h@[k] as u32,
                forall|k: int| 0 <= k < i ==> #[trigger] vals@[k] < (1u32 << 14u32),
            decreases N - i,
        {
            vals.push(self.h[i] as u32);
            i += 1;
        }
        let mut out = zero_bytes(PK_BYTES);
        assert forall|k: int| 8 <= k < 8 * PK_BYTES implies !#[trigger] bytes_bits(out@)[k] by {
            let y = 128u8 >> ((k % 8) as u8);
            assert(0u8 & y == 0u8) by (bit_vector);
        }
        write_fields(&mut out, 8, H_BITS, &vals);
        let ghost before = bytes_bits(out@);
        set_header(&mut out, PK_HEADER);
        proof {
            lemma_fields_kept(bytes_bits(out@), before, 8, H_BITS as nat, N as int);
        }
        out
    }

    /// Decodes a key, refusing a wrong length or header and any coefficient
    /// not below `q`.
    pub fn from_bytes(bytes: &[u8]) -> (r: Result<PublicKey, DecodeError>)
        ensures
            match r {
                Ok(pk) => public_key_decoding(bytes@) == Ok::<Seq<u16>, DecodeError>(pk.h@)
                    && pk.wf(),
                Err(e) => public_key_decoding(bytes@) == Err::<Seq<u16>, DecodeError>(e),
            },
    {
        if bytes.len() != PK_BYTES {
            return Err(DecodeError::BadLength);
        }
        if bytes[0] != PK_HEADER {
            return Err(DecodeError::BadHeader);
        }
        let vals = read_fields(bytes, 8, H_BITS, N);
        let ghost want = Seq::new(
            N as nat,
            |i: int| bits_value(bytes_bits(bytes@), 8 + H_BITS * i, H_BITS as nat) as u16,
        );
        let mut h: Vec<u16> = Vec::with_capacity(N);
        let mut i: usize = 0;
        while i < N
            invariant
                i <= N,
                bytes@.len() == PK_BYTES,
                bytes@[0] == PK_HEADER,
                vals@.len() == N,
                want == Seq::new(
                    N as nat,
                    |i: int| bits_value(bytes_bits(bytes@), 8 + H_BITS * i, H_BITS as nat) as u16,
                ),
                forall|k: int|
                    0 <= k < N ==> #[trigger] vals@[k] as nat == bits_value(
                        bytes_bits(bytes@),
                        8 + H_BITS * k,
                        H_BITS as nat,
                    ),
                h@ == want.take(i as int),
                reduced(h@),
            decreases N - i,
        {
            if vals[i] >= Q {
                proof {
                    lemma_bits_value_bound(bytes_bits(bytes@), 8 + H_BITS * i, H_BITS as nat);
                    vstd::arithmetic::power2::lemma2_to64();
                    assert(want[i as int] as int == vals@[i as int] as int);
                    assert(!reduced(want));
                }
                return Err(DecodeError::BadCoefficient);
            }
            h.push(vals[i] as u16);
            i += 1;
            assert(h@ =~= want.take(i as int));
        }
        assert(want.take(N as int) =~= want);
        Ok(PublicKey { h })
    }
}

impl Signature {
    /// Encodes the signature: header byte, salt, compressed coefficients.
    pub fn to_bytes(&self) -> (r: Vec<u8>)
        ensures
            r@ == signature_bytes(self.salt@, self.payload@),
    {
        let mut out: Vec<u8> = Vec::new();
        out.push(SIG_HEADER);
        let mut i: usize = 0;
        while i < self.salt.len()
            invariant
                i <= self.salt@.len(),
                out@ == seq![SIG_HEADER] + self.salt@.take(i as int),
            decreases self.salt@.len() - i,
        {
            out.push(self.salt[i]);
            i += 1;
            assert(out@ =~= seq![SIG_HEADER] + self.salt@.take(i as int));
        }
        assert(self.salt@.take(self.salt@.len() as int) =~= self.salt@);
        let mut j: usize = 0;
        while j < self.payload.len()
            invariant
                j <= self.payload@.len(),
                out@ == seq![SIG_HEADER] + self.salt@ + self.payload@.take(j as int),
            decreases self.payload@.len() - j,
        {
            out.push(self.payload[j]);
            j += 1;
            assert(out@ =~= seq![SIG_HEADER] + self.salt@ + self.payload@.take(j as int));
        }
        assert(self.payload@.take(self.payload@.len() as int) =~= self.payload@);
        out
    }

    /// Decodes a signature, refusing a wrong length or header. The compressed
    /// coefficients are checked when the signature is verified.
    pub fn from_bytes(bytes: &[u8]) -> (r: Result<Signature, DecodeError>)
        ensures
            match r {
                Ok(sig) => signature_decoding(bytes@) == Ok::<(Seq<u8>, Seq<u8>), DecodeError>(
                    (sig.salt@, sig.payload@),
                ) && sig.wf(),
                Err(e) => signature_decoding(bytes@) == Err::<(Seq<u8>, Seq<u8>), DecodeError>(e),
            },
    {
        if bytes.len() != SIG_BYTES {
            return Err(DecodeError::BadLength);
        }
        if bytes[0] != SIG_HEADER {
            return Err(DecodeError::BadHeader);
        }
        let mut salt: Vec<u8> = Vec::with_capacity(SALT_BYTES);
        let mut payload: Vec<u8> = Vec::with_capacity(PAYLOAD_BYTES);
        let mut i: usize = 1;
        while i < SIG_BYTES
            invariant
                1 <= i <= SIG_BYTES,
                bytes@.len() == SIG_BYTES,
                i <= 1 + SALT_BYTES ==> salt@ == bytes@.subrange(1, i as int) && payload@.len() == 0,
                i > 1 + SALT_BYTES ==> salt@ == bytes@.subrange(1, 1 + SALT_BYTES)
                    && payload@ == bytes@.subrange(1 + SALT_BYTES, i as int),
            decreases SIG_BYTES - i,
        {
            if i < 1 + SALT_BYTES {
                salt.push(bytes[i]);
            } else {
                payload.push(bytes[i]);
            }
            i += 1;
            assert(i <= 1 + SALT_BYTES ==> salt@ =~= bytes@.subrange(1, i as int));
            assert(i > 1 + SALT_BYTES ==> payload@ =~= bytes@.subrange(1 + SALT_BYTES, i as int));
        }
        Ok(Signature { salt, payload })
    }
}

/// Two's complement of a coefficient on `w` bits.
fn to_twos(v: i16, w: usize) -> (r: u32)
    requires
        w == 6 || w == 8,
        -(vstd::arithmetic::power2::pow2((w - 1) as nat) as int) < v < vstd::arithmetic::power2::pow2(
            (w - 1) as nat,
        ),
    ensures
        r as nat == twos(v, w as nat),
        r < (1u32 << (w as u32)),
{
    proof {
        vstd::arithmetic::power2::lemma2_to64();
    }
    assert((1u32 << 6u32) == 64u32 && (1u32 << 8u32) == 256u32) by (bit_vector);
    if v < 0 {
        if w == 6 {
            (v + 64) as u32
        } else {
            (v + 256) as u32
        }
    } else {
        v as u32
    }
}

/// Two's complement of each coefficient of `s` on `w` bits.
fn twos_all(s: &[i16], w: usize) -> (r: Vec<u32>)
    requires
        w == 6 || w == 8,
        bounded(s@, vstd::arithmetic::power2::pow2((w - 1) as nat) as int),
    ensures
        r@.len() == s@.len(),
        forall|i: int| 0 <= i < s@.len() ==> #[trigger] r@[i] as nat == twos(s@[i], w as nat),
        forall|i: int| 0 <= i < s@.len() ==> #[trigger] r@[i] < (1u32 << (w as u32)),
{
    let mut r: Vec<u32> = Vec::with_capacity(s.len());
    let mut i: usize = 0;
    while i < s.len()
        invariant
            i <= s@.len(),
            w == 6 || w == 8,
            bounded(s@, vstd::arithmetic::power2::pow2((w - 1) as nat) as int),
            r@.len() == i,
            forall|k: int| 0 <= k < i ==> #[trigger] r@[k] as nat == twos(s@[k], w as nat),
            forall|k: int| 0 <= k < i ==> #[trigger] r@[k] < (1u32 << (w as u32)),
        decreases s@.len() - i,
    {
        r.push(to_twos(s[i], w));
        i += 1;
    }
    r
}

impl SecretKey {
    /// Encodes `f`, `g` and `F` after the header byte, in two's complement
    /// on 6, 6 and 8 bits. `G` follows from them.
    pub fn to_bytes(&self) -> (r: Vec<u8>)
        requires
            self.wf(),
        ensures
            secret_key_encodes(r@, *self),
    {
        proof {
            vstd::arithmetic::power2::lemma2_to64();
        }
        let fv = twos_all(&self.f, FG_BITS);
        let gv = twos_all(&self.g, FG_BITS);
        let big_fv = twos_all(&self.big_f, BIG_F_BITS);
        let mut out = zero_bytes(SK_BYTES);
        assert forall|k: int| 8 <= k < 8 * SK_BYTES implies !#[trigger] bytes_bits(out@)[k] by {
            let y = 128u8 >> ((k % 8) as u8);
            assert(0u8 & y == 0u8) by (bit_vector);
        }
        let off_g: usize = 8 + FG_BITS * N;
        let off_big_f: usize = 8 + 2 * FG_BITS * N;
        write_fields(&mut out, 8, FG_BITS, &fv);
        let ghost b1 = bytes_bits(out@);
        write_fields(&mut out, off_g, FG_BITS, &gv);
        let ghost b2 = bytes_bits(out@);
        write_fields(&mut out, off_big_f, BIG_F_BITS, &big_fv);
        let ghost b3 = bytes_bits(out@);
        set_header(&mut out, SK_HEADER);
        proof {
            let b = bytes_bits(out@);
            lemma_fields_kept(b2, b1, 8, FG_BITS as nat, N as int);
            lemma_fields_kept(b3, b2, 8, FG_BITS as nat, N as int);
            lemma_fields_kept(b, b3, 8, FG_BITS as nat, N as int);
            lemma_fields_kept(b3, b2, off_g as int, FG_BITS as nat, N as int);
            lemma_fields_kept(b, b3, off_g as int, FG_BITS as nat, N as int);
            lemma_fields_kept(b, b3, off_big_f as int, BIG_F_BITS as nat, N as int);
        }
        out
    }
}

/// Decoding an encoded public key gives back its coefficients.
pub proof fn lemma_public_key_round_trip(bytes: Seq<u8>, h: Seq<u16>)
    requires
        h.len() == N,
        reduced(h),
        public_key_encodes(bytes, h),
    ensures
        public_key_decoding(bytes) == Ok::<Seq<u16>, DecodeError>(h),
{
    let d = Seq::new(
        N as nat,
        |i: int| bits_value(bytes_bits(bytes), 8 + H_BITS * i, H_BITS as nat) as u16,
    );
    assert(d =~= h);
}

/// Decoding an encoded signature gives back its salt and compressed
/// coefficients.
pub proof fn lemma_signature_round_trip(salt: Seq<u8>, payload: Seq<u8>)
    requires
        salt.len() == SALT_BYTES,
        payload.len() == PAYLOAD_BYTES,
    ensures
        signature_decoding(signature_bytes(salt, payload)) == Ok::<
            (Seq<u8>, Seq<u8>),
            DecodeError,
        >((salt, payload)),
{
    let b = signature_bytes(salt, payload);
    assert(b.subrange(1, 1 + SALT_BYTES) =~= salt);
    assert(b.subrange(1 + SALT_BYTES, SIG_BYTES as int) =~= payload);
}

/// `G` as it follows from `h` and `F`: `G = h * F` modulo `q`, centred. When
/// `h = g / f` modulo `q` and `f * G - g * F = q` holds for a short `G`, it is
/// this one.
pub open spec fn derive_big_g(h: Seq<u16>, big_f: Seq<i16>) -> Seq<i16> {
    let p = poly_mul(ints_u16(h), ints_u16(mod_q(big_f)));
    Seq::new(h.len(), |i: int| center(p[i] % (Q as int)) as i16)
}

/// `f` has an inverse modulo `q`.
pub open spec fn invertible_mod_q(f: Seq<i16>) -> bool {
    exists|u: Seq<u16>| u.len() == f.len() && mul_q(mod_q(f), u) == one_q(f.len())
}

/// `f * f^(q - 2) = 1` modulo `q`: the check that finds `f` invertible.
pub open spec fn inverse_check(f: Seq<i16>) -> bool {
    mul_q(mod_q(f), pow_q(mod_q(f), (Q - 2) as nat)) == one_q(f.len())
}

/// Whether `f`, `g`, `F` and `h` make a key pair: `f` is invertible modulo
/// `q`, and the key equations hold.
pub open spec fn parts_form_keys(f: Seq<i16>, g: Seq<i16>, big_f: Seq<i16>, h: Seq<u16>) -> bool {
    f.len() == N && inverse_check(f) && key_equations(f, g, big_f, h)
}

/// Whether sizes and ranges are right, `h * f = g` modulo `q`, and with `G`
/// derived from `h` and `F`, `f * G - g * F = q`.
pub open spec fn key_equations(f: Seq<i16>, g: Seq<i16>, big_f: Seq<i16>, h: Seq<u16>) -> bool {
    let big_g = derive_big_g(h, big_f);
    &&& f.len() == N
    &&& g.len() == N
    &&& big_f.len() == N
    &&& h.len() == N
    &&& bounded(f, 32)
    &&& bounded(g, 32)
    &&& bounded(big_f, 128)
    &&& reduced(h)
    &&& key_relation(h, f, g)
    &&& bounded(big_g, 128)
    &&& ntru_equation(f, g, big_f, big_g)
}

/// Whether every value of `s` lies strictly between `-bound` and `bound`.
fn all_bounded(s: &[i16], bound: i16) -> (r: bool)
    requires
        bound > 0,
    ensures
        r == bounded(s@, bound as int),
{
    let mut i: usize = 0;
    while i < s.len()
        invariant
            i <= s@.len(),
            bound > 0,
            forall|k: int| 0 <= k < i ==> -bound < #[trigger] s@[k] < bound,
        decreases s@.len() - i,
    {
        if s[i] <= -bound || s[i] >= bound {
            return false;
        }
        i += 1;
    }
    true
}

/// Builds a key pair from `f`, `g`, `F` and `h`, deriving `G` and checking
/// the key equations exactly.
fn assemble_keys(f: &[i16], g: &[i16], big_f: &[i16], h: &[u16]) -> (r: Option<
    (SecretKey, PublicKey),
>)
    ensures
        r is Some <==> key_equations(f@, g@, big_f@, h@),
        r matches Some((sk, pk)) ==> {
            &&& sk.f@ == f@
            &&& sk.g@ == g@
            &&& sk.big_f@ == big_f@
            &&& sk.big_g@ == derive_big_g(h@, big_f@)
            &&& pk.h@ == h@
            &&& sk.wf()
            &&& pk.wf()
            &&& key_relation(pk.h@, sk.f@, sk.g@)
        },
{
    if f.len() != N || g.len() != N || big_f.len() != N || h.len() != N {
        return None;
    }
    if !all_bounded(f, 32) || !all_bounded(g, 32) || !all_bounded(big_f, 128) {
        return None;
    }
    let mut i: usize = 0;
    while i < N
        invariant
            h@.len() == N,
            i <= N,
            forall|k: int| 0 <= k < i ==> #[trigger] h@[k] < Q,
        decreases N - i,
    {
        if h[i] >= Q as u16 {
            return None;
        }
        i += 1;
    }
    // h * f = g modulo q
    let fq = to_mod_q(f);
    let gq = to_mod_q(g);
    let hf = mul_mod_q(h, &fq);
    let mut k: usize = 0;
    while k < N
        invariant
            k <= N,
            hf@.len() == N,
            gq@ == mod_q(g@),
            g@.len() == N,
            fq@ == mod_q(f@),
            forall|t: int|
                0 <= t < N ==> #[trigger] hf@[t] as int == poly_mul(ints_u16(h@), ints_u16(fq@))[t]
                    % (Q as int),
            forall|t: int|
                0 <= t < k ==> #[trigger] poly_mul(ints_u16(h@), ints_u16(mod_q(f@)))[t] % (
                Q as int) == (g@[t] as int) % (Q as int),
        decreases N - k,
    {
        if hf[k] != gq[k] {
            proof {
                assert(!(poly_mul(ints_u16(h@), ints_u16(mod_q(f@)))[k as int] % (Q as int) == (
                g@[k as int] as int) % (Q as int)));
            }
            return None;
        }
        k += 1;
    }
    // G = h * F modulo q, centred
    let big_fq = to_mod_q(big_f);
    let hbf = mul_mod_q(h, &big_fq);
    let ghost want_g = derive_big_g(h@, big_f@);
    let mut big_g: Vec<i16> = Vec::with_capacity(N);
    let mut k: usize = 0;
    while k < N
        invariant
            k <= N,
            h@.len() == N,
            hbf@.len() == N,
            reduced(hbf@),
            want_g == derive_big_g(h@, big_f@),
            big_fq@ == mod_q(big_f@),
            forall|t: int|
                0 <= t < N ==> #[trigger] hbf@[t] as int == poly_mul(
                    ints_u16(h@),
                    ints_u16(big_fq@),
                )[t] % (Q as int),
            big_g@ == want_g.take(k as int),
        decreases N - k,
    {
        let d = hbf[k];
        let v: i16 = if d > (Q / 2) as u16 {
            d as i16 - Q as i16
        } else {
            d as i16
        };
        big_g.push(v);
        k += 1;
        assert(big_g@ =~= want_g.take(k as int));
    }
    assert(want_g.take(N as int) =~= want_g);
    if !all_bounded(&big_g, 128) {
        return None;
    }
    // f * G - g * F = q
    let fbg = mul_exact(f, &big_g);
    let gbf = mul_exact(g, big_f);
    let mut k: usize = 0;
    while k < N
        invariant
            k <= N,
            f@.len() == N,
            fbg@.len() == N,
            gbf@.len() == N,
            bounded(f@, 32),
            bounded(g@, 32),
            bounded(big_f@, 128),
            bounded(big_g@, 128),
            big_g@ == derive_big_g(h@, big_f@),
            forall|t: int| 0 <= t < N ==> -0x400_0000_0000 <= #[trigger] fbg@[t] <= 0x400_0000_0000,
            forall|t: int| 0 <= t < N ==> -0x400_0000_0000 <= #[trigger] gbf@[t] <= 0x400_0000_0000,
            forall|t: int|
                0 <= t < N ==> #[trigger] fbg@[t] as int == poly_mul(ints_i16(f@), ints_i16(big_g@))[t],
            forall|t: int|
                0 <= t < N ==> #[trigger] gbf@[t] as int == poly_mul(ints_i16(g@), ints_i16(big_f@))[t],
            forall|t: int|
                0 <= t < k ==> #[trigger] poly_mul(ints_i16(f@), ints_i16(big_g@))[t] - poly_mul(
                    ints_i16(g@),
                    ints_i16(big_f@),
                )[t] == if t == 0 {
                    Q as int
                } else {
                    0
                },
        decreases N - k,
    {
        let want: i64 = if k == 0 {
            Q as i64
        } else {
            0
        };
        if fbg[k] - gbf[k] != want {
            return None;
        }
        k += 1;
    }
    let sk = SecretKey { f: copy_of(f), g: copy_of(g), big_f: copy_of(big_f), big_g };
    let pk = PublicKey { h: copy_of(h) };
    Some((sk, pk))
}

/// `f^(q - 2)` modulo `q`, and whether it is the inverse of `f`.
fn inverse_mod_q(f: &[i16]) -> (r: (Vec<u16>, bool))
    requires
        f@.len() == N,
    ensures
        r.0@ == pow_q(mod_q(f@), (Q - 2) as nat),
        r.0@.len() == N,
        reduced(r.0@),
        r.1 == inverse_check(f@),
        r.1 ==> invertible_mod_q(f@),
{
    let fq = to_mod_q(f);
    let finv = pow_mod_q(&fq, Q - 2);
    let prod = mul_mod_q(&fq, &finv);
    proof {
        lemma_mul_q_view(fq@, finv@, prod@);
    }
    let mut ok = prod[0] == 1;
    let mut k: usize = 1;
    while k < N
        invariant
            1 <= k <= N,
            prod@.len() == N,
            ok <==> (forall|t: int| 0 <= t < k ==> #[trigger] prod@[t] == one_q(N as nat)[t]),
        decreases N - k,
    {
        if prod[k] != 0 {
            ok = false;
        }
        k += 1;
    }
    proof {
        if ok {
            assert(prod@ =~= one_q(N as nat));
        } else {
            let t = choose|t: int| 0 <= t < N && prod@[t] != one_q(N as nat)[t];
            assert(prod@[t] != one_q(N as nat)[t]);
        }
    }
    (finv, ok)
}

/// Builds a key pair from `f`, `g`, `F` and `h`: checks that `f` is
/// invertible modulo `q`, derives `G`, and checks both key equations exactly;
/// `None` when the parts do not form keys.
pub fn keys_from_parts(f: &[i16], g: &[i16], big_f: &[i16], h: &[u16]) -> (r: Option<
    (SecretKey, PublicKey),
>)
    ensures
        r is Some <==> parts_form_keys(f@, g@, big_f@, h@),
        r matches Some((sk, pk)) ==> {
            &&& sk.f@ == f@
            &&& sk.g@ == g@
            &&& sk.big_f@ == big_f@
            &&& sk.big_g@ == derive_big_g(h@, big_f@)
            &&& pk.h@ == h@
            &&& sk.wf()
            &&& pk.wf()
            &&& key_relation(pk.h@, sk.f@, sk.g@)
            &&& invertible_mod_q(sk.f@)
        },
{
    if f.len() != N {
        return None;
    }
    let (_finv, ok) = inverse_mod_q(f);
    if !ok {
        return None;
    }
    assemble_keys(f, g, big_f, h)
}

/// A copy of `s`.
fn copy_of<T: Copy>(s: &[T]) -> (r: Vec<T>)
    ensures
        r@ == s@,
{
    let mut r: Vec<T> = Vec::with_capacity(s.len());
    let mut i: usize = 0;
    while i < s.len()
        invariant
            i <= s@.len(),
            r@ == s@.take(i as int),
        decreases s@.len() - i,
    {
        r.push(s[i]);
        i += 1;
        assert(r@ =~= s@.take(i as int));
    }
    assert(s@.take(s@.len() as int) =~= s@);
    r
}

/// `h = g / f` modulo `q`, the inverse taken as `f^(q - 2)`: modulo `q` the
/// ring splits into `n` copies of the field of `q` elements, where
/// `a^(q - 2)` is the inverse of every nonzero `a`.
pub open spec fn derive_h(f: Seq<i16>, g: Seq<i16>) -> Seq<u16> {
    mul_q(mod_q(g), pow_q(mod_q(f), (Q - 2) as nat))
}

/// Whether `f`, `g` and `F` make a secret key, with `h` and `G` derived.
pub open spec fn secret_parts_form_keys(f: Seq<i16>, g: Seq<i16>, big_f: Seq<i16>) -> bool {
    f.len() == N && g.len() == N && parts_form_keys(f, g, big_f, derive_h(f, g))
}

/// Builds a key pair from `f`, `g` and `F`: checks that `f` is invertible
/// modulo `q`, derives `h = g / f` and `G`, and checks both key equations
/// exactly; `None` when they do not make keys.
pub fn keys_from_secret_parts(f: &[i16], g: &[i16], big_f: &[i16]) -> (r: Option<
    (SecretKey, PublicKey),
>)
    ensures
        r is Some <==> secret_parts_form_keys(f@, g@, big_f@),
        r matches Some((sk, pk)) ==> {
            &&& sk.f@ == f@
            &&& sk.g@ == g@
            &&& sk.big_f@ == big_f@
            &&& pk.h@ == derive_h(f@, g@)
            &&& sk.big_g@ == derive_big_g(pk.h@, big_f@)
            &&& sk.wf()
            &&& pk.wf()
            &&& key_relation(pk.h@, sk.f@, sk.g@)
            &&& invertible_mod_q(sk.f@)
        },
{
    if f.len() != N || g.len() != N {
        return None;
    }
    let (finv, ok) = inverse_mod_q(f);
    if !ok {
        return None;
    }
    let gq = to_mod_q(g);
    let h = mul_mod_q(&gq, &finv);
    proof {
        lemma_mul_q_view(gq@, finv@, h@);
    }
    assemble_keys(f, g, big_f, &h)
}

/// Largest `||(g, -f)||^2` of a generated key: `(1.17)^2 * q`, rounded down.
pub const GEN_NORM_BOUND: u64 = 16822;

/// `||(g, -f)||^2` is within `GEN_NORM_BOUND`.
pub open spec fn short_basis(f: Seq<i16>, g: Seq<i16>) -> bool {
    sq_norm(ints_i16(f)) + sq_norm(ints_i16(g)) <= GEN_NORM_BOUND
}

/// `f` in the generator's signing key for `seed`.
pub open spec fn gen_f(seed: Seq<u8>) -> Seq<i16> {
    lsb_signed_fields(generated_sign_key(seed), 8, FG_BITS as nat, N as nat)
}

/// `g` in the generator's signing key for `seed`.
pub open spec fn gen_g(seed: Seq<u8>) -> Seq<i16> {
    lsb_signed_fields(generated_sign_key(seed), 8 + FG_BITS * N, FG_BITS as nat, N as nat)
}

/// `F` in the generator's signing key for `seed`.
pub open spec fn gen_big_f(seed: Seq<u8>) -> Seq<i16> {
    lsb_signed_fields(generated_sign_key(seed), 8 + 2 * FG_BITS * N, BIG_F_BITS as nat, N as nat)
}

/// Whether the generator's output for `seed` makes a key pair.
pub open spec fn keygen_succeeds(seed: Seq<u8>) -> bool {
    &&& !has_forbidden(gen_f(seed), FG_BITS as nat)
    &&& !has_forbidden(gen_g(seed), FG_BITS as nat)
    &&& !has_forbidden(gen_big_f(seed), BIG_F_BITS as nat)
    &&& short_basis(gen_f(seed), gen_g(seed))
    &&& secret_parts_form_keys(gen_f(seed), gen_g(seed), gen_big_f(seed))
}

/// Generates a key pair from a 32-byte seed. `f`, `g` and `F` are those of
/// the generator's signing key, a function of the seed alone; `h = g / f` and
/// `G` are derived, and the pair is returned only if `f` is invertible modulo
/// `q`, `||(g, -f)||^2` is within bound and both key equations hold exactly.
pub fn keygen(seed: [u8; 32]) -> (r: Option<(SecretKey, PublicKey)>)
    ensures
        r is Some <==> keygen_succeeds(seed@),
        r matches Some((sk, pk)) ==> {
            &&& sk.f@ == gen_f(seed@)
            &&& sk.g@ == gen_g(seed@)
            &&& sk.big_f@ == gen_big_f(seed@)
            &&& pk.h@ == derive_h(sk.f@, sk.g@)
            &&& sk.big_g@ == derive_big_g(pk.h@, sk.big_f@)
            &&& sk.wf()
            &&& pk.wf()
            &&& key_relation(pk.h@, sk.f@, sk.g@)
            &&& invertible_mod_q(sk.f@)
            &&& short_basis(sk.f@, sk.g@)
        },
{
    let (sign_key, _vrfy_key) = generate_encoded_keys(seed);
    let f = match read_lsb_signed(&sign_key, 8, FG_BITS, N) {
        Some(v) => v,
        None => {
            return None;
        },
    };
    let g = match read_lsb_signed(&sign_key, 8 + FG_BITS * N, FG_BITS, N) {
        Some(v) => v,
        None => {
            return None;
        },
    };
    let big_f = match read_lsb_signed(&sign_key, 8 + 2 * FG_BITS * N, BIG_F_BITS, N) {
        Some(v) => v,
        None => {
            return None;
        },
    };
    let nf = sq_norm_i16(&f);
    let ng = sq_norm_i16(&g);
    if nf > GEN_NORM_BOUND || ng > GEN_NORM_BOUND - nf {
        return None;
    }
    keys_from_secret_parts(&f, &g, &big_f)
}

/// A `w`-bit two's complement field as a signed value.
pub open spec fn from_twos(u: nat, w: nat) -> int {
    if u >= vstd::arithmetic::power2::pow2((w - 1) as nat) {
        u - vstd::arithmetic::power2::pow2(w)
    } else {
        u as int
    }
}

/// The signed fields of a secret key encoding: `count` fields of `w` bits
/// from bit `off`.
pub open spec fn signed_fields(b: Seq<bool>, off: int, w: nat, count: nat) -> Seq<i16> {
    Seq::new(count, |i: int| from_twos(bits_value(b, off + w * i, w), w) as i16)
}

/// Whether a field holds `-2^(w - 1)`, which no coefficient is written as.
pub open spec fn has_forbidden(s: Seq<i16>, w: nat) -> bool {
    exists|i: int|
        0 <= i < s.len() && #[trigger] s[i] == -vstd::arithmetic::power2::pow2((w - 1) as nat)
}

/// What decoding a secret key yields: its `f`, `g` and `F`.
pub open spec fn secret_key_decoding(bytes: Seq<u8>) -> Result<
    (Seq<i16>, Seq<i16>, Seq<i16>),
    DecodeError,
> {
    let b = bytes_bits(bytes);
    let f = signed_fields(b, 8, FG_BITS as nat, N as nat);
    let g = signed_fields(b, 8 + FG_BITS * N, FG_BITS as nat, N as nat);
    let big_f = signed_fields(b, 8 + 2 * FG_BITS * N, BIG_F_BITS as nat, N as nat);
    if bytes.len() != SK_BYTES {
        Err(DecodeError::BadLength)
    } else if bytes[0] != SK_HEADER {
        Err(DecodeError::BadHeader)
    } else if has_forbidden(f, FG_BITS as nat) || has_forbidden(g, FG_BITS as nat)
        || has_forbidden(big_f, BIG_F_BITS as nat) {
        Err(DecodeError::BadCoefficient)
    } else if !secret_parts_form_keys(f, g, big_f) {
        Err(DecodeError::InvalidKey)
    } else {
        Ok((f, g, big_f))
    }
}

/// Turns `w`-bit two's complement fields into values; `None` if one holds
/// `-2^(w - 1)`.
pub(crate) fn signed_from_fields(vals: &[u32], w: usize) -> (r: Option<Vec<i16>>)
    requires
        w == 6 || w == 8,
        forall|k: int| 0 <= k < vals@.len() ==> #[trigger] vals@[k] < vstd::arithmetic::power2::pow2(w as nat),
    ensures
        match r {
            Some(s) => s@ == Seq::new(vals@.len(), |i: int| from_twos(vals@[i] as nat, w as nat) as i16)
                && !has_forbidden(s@, w as nat),
            None => has_forbidden(
                Seq::new(vals@.len(), |i: int| from_twos(vals@[i] as nat, w as nat) as i16),
                w as nat,
            ),
        },
{
    proof {
        vstd::arithmetic::power2::lemma2_to64();
    }
    let ghost want = Seq::new(vals@.len(), |i: int| from_twos(vals@[i] as nat, w as nat) as i16);
    let half: u32 = if w == 6 {
        32
    } else {
        128
    };
    let full: i32 = if w == 6 {
        64
    } else {
        256
    };
    let mut out: Vec<i16> = Vec::with_capacity(vals.len());
    let mut i: usize = 0;
    while i < vals.len()
        invariant
            i <= vals@.len(),
            w == 6 || w == 8,
            half as nat == vstd::arithmetic::power2::pow2((w - 1) as nat),
            full as int == vstd::arithmetic::power2::pow2(w as nat),
            (half == 32 && full == 64) || (half == 128 && full == 256),
            forall|k: int| 0 <= k < vals@.len() ==> #[trigger] vals@[k] < vstd::arithmetic::power2::pow2(w as nat),
            want == Seq::new(vals@.len(), |i: int| from_twos(vals@[i] as nat, w as nat) as i16),
            out@ == want.take(i as int),
            forall|k: int| 0 <= k < i ==> #[trigger] want[k] != -(half as int),
        decreases vals@.len() - i,
    {
        let u = vals[i];
        let v: i32 = if u >= half {
            u as i32 - full
        } else {
            u as i32
        };
        assert(want[i as int] == v as i16);
        if v == -(half as i32) {
            proof {
                assert(want[i as int] == -vstd::arithmetic::power2::pow2((w - 1) as nat));
            }
            return None;
        }
        out.push(v as i16);
        i += 1;
        assert(out@ =~= want.take(i as int));
    }
    assert(want.take(vals@.len() as int) =~= want);
    Some(out)
}

/// Reads `N` signed fields of `w` bits from bit `off`, or `None` if one holds
/// `-2^(w - 1)`.
fn read_signed(bytes: &[u8], off: usize, w: usize) -> (r: Option<Vec<i16>>)
    requires
        w == 6 || w == 8,
        off + w * N <= 8 * bytes@.len(),
        8 * bytes@.len() <= usize::MAX,
    ensures
        match r {
            Some(s) => s@ == signed_fields(bytes_bits(bytes@), off as int, w as nat, N as nat)
                && !has_forbidden(s@, w as nat),
            None => has_forbidden(
                signed_fields(bytes_bits(bytes@), off as int, w as nat, N as nat),
                w as nat,
            ),
        },
{
    let vals = read_fields(bytes, off, w, N);
    proof {
        assert forall|k: int| 0 <= k < vals@.len() implies #[trigger] vals@[k]
            < vstd::arithmetic::power2::pow2(w as nat) by {
            lemma_bits_value_bound(bytes_bits(bytes@), off + w * k, w as nat);
        }
    }
    let r = signed_from_fields(&vals, w);
    proof {
        assert(Seq::new(vals@.len(), |i: int| from_twos(vals@[i] as nat, w as nat) as i16)
            =~= signed_fields(bytes_bits(bytes@), off as int, w as nat, N as nat));
    }
    r
}

impl SecretKey {
    /// Decodes a secret key: `f`, `g` and `F` are read, `h` and `G` derived,
    /// and both key equations checked.
    pub fn from_bytes(bytes: &[u8]) -> (r: Result<SecretKey, DecodeError>)
        ensures
            match r {
                Ok(sk) => {
                    &&& secret_key_decoding(bytes@) == Ok::<
                        (Seq<i16>, Seq<i16>, Seq<i16>),
                        DecodeError,
                    >((sk.f@, sk.g@, sk.big_f@))
                    &&& sk.big_g@ == derive_big_g(derive_h(sk.f@, sk.g@), sk.big_f@)
                    &&& sk.wf()
                },
                Err(e) => secret_key_decoding(bytes@) == Err::<
                    (Seq<i16>, Seq<i16>, Seq<i16>),
                    DecodeError,
                >(e),
            },
    {
        if bytes.len() != SK_BYTES {
            return Err(DecodeError::BadLength);
        }
        if bytes[0] != SK_HEADER {
            return Err(DecodeError::BadHeader);
        }
        let off_g: usize = 8 + FG_BITS * N;
        let off_big_f: usize = 8 + 2 * FG_BITS * N;
        let f = match read_signed(bytes, 8, FG_BITS) {
            Some(v) => v,
            None => {
                return Err(DecodeError::BadCoefficient);
            },
        };
        let g = match read_signed(bytes, off_g, FG_BITS) {
            Some(v) => v,
            None => {
                return Err(DecodeError::BadCoefficient);
            },
        };
        let big_f = match read_signed(bytes, off_big_f, BIG_F_BITS) {
            Some(v) => v,
            None => {
                return Err(DecodeError::BadCoefficient);
            },
        };
        match keys_from_secret_parts(&f, &g, &big_f) {
            Some((sk, _pk)) => Ok(sk),
            None => Err(DecodeError::InvalidKey),
        }
    }
}

/// Decoding an encoded secret key gives back its `f`, `g` and `F`; `G` is
/// then derived from them as the key's own `G` was.
pub proof fn lemma_secret_key_round_trip(bytes: Seq<u8>, sk: SecretKey)
    requires
        sk.wf(),
        secret_parts_form_keys(sk.f@, sk.g@, sk.big_f@),
        secret_key_encodes(bytes, sk),
    ensures
        secret_key_decoding(bytes) == Ok::<(Seq<i16>, Seq<i16>, Seq<i16>), DecodeError>(
            (sk.f@, sk.g@, sk.big_f@),
        ),
{
    vstd::arithmetic::power2::lemma2_to64();
    let b = bytes_bits(bytes);
    let f = signed_fields(b, 8, FG_BITS as nat, N as nat);
    let g = signed_fields(b, 8 + FG_BITS * N, FG_BITS as nat, N as nat);
    let big_f = signed_fields(b, 8 + 2 * FG_BITS * N, BIG_F_BITS as nat, N as nat);
    assert(f =~= sk.f@);
    assert(g =~= sk.g@);
    assert(big_f =~= sk.big_f@);
    assert(!has_forbidden(f, FG_BITS as nat));
    assert(!has_forbidden(g, FG_BITS as nat));
    assert(!has_forbidden(big_f, BIG_F_BITS as nat));
}

/// `h = g / f` modulo `q`, as `derive_h` says.
fn derive_public(f: &[i16], g: &[i16]) -> (r: Vec<u16>)
    requires
        f@.len() == N,
        g@.len() == N,
    ensures
        r@ == derive_h(f@, g@),
        r@.len() == N,
        reduced(r@),
{
    let (finv, _ok) = inverse_mod_q(f);
    let gq = to_mod_q(g);
    let h = mul_mod_q(&gq, &finv);
    proof {
        lemma_mul_q_view(gq@, finv@, h@);
    }
    h
}

/// The compressed polynomial of a signature, `s2 = z1 * f + z2 * F`, from the
/// sampled `(z1, z2)`; the verifier recovers `s1 = c - s2 * h` from it.
pub open spec fn signature_s2(z1: Seq<i16>, z2: Seq<i16>, f: Seq<i16>, big_f: Seq<i16>) -> Seq<int> {
    let a = poly_mul(ints_i16(z1), ints_i16(f));
    let b = poly_mul(ints_i16(z2), ints_i16(big_f));
    Seq::new(z1.len(), |i: int| a[i] + b[i])
}

/// Largest coefficient of `s2` that can pass the norm bound: the square root
/// of `SIG_BOUND`, rounded down.
pub const S2_MAX: i64 = 5833;

/// Every coefficient of `s` lies within `S2_MAX`.
pub open spec fn s2_in_range(s: Seq<int>) -> bool {
    forall|i: int| 0 <= i < s.len() ==> -S2_MAX <= #[trigger] s[i] <= S2_MAX
}

/// A polynomial with small coefficients as machine integers.
pub open spec fn as_i16(s: Seq<int>) -> Seq<i16> {
    s.map_values(|x: int| x as i16)
}

/// Whether `(z1, z2)` give a signature of `msg` with `salt` under `sk`: `s2`
/// is in range, compresses into `PAYLOAD_BYTES`, and the result verifies
/// under `h = g / f`.
pub open spec fn signature_found(
    msg: Seq<u8>,
    salt: Seq<u8>,
    sk: SecretKey,
    z1: Seq<i16>,
    z2: Seq<i16>,
) -> bool {
    let s2 = signature_s2(z1, z2, sk.f@, sk.big_f@);
    &&& s2_in_range(s2)
    &&& exists|p: Seq<u8>|
        p.len() == PAYLOAD_BYTES && compress_spec(as_i16(s2), PAYLOAD_BYTES as nat) == Some(
            bytes_bits(p),
        ) && #[trigger] verify_spec(msg, salt, p, derive_h(sk.f@, sk.g@))
}

/// Completes a signature from the sampled `(z1, z2)`: computes
/// `s2 = z1 * f + z2 * F`, compresses it, and keeps the result only if it
/// verifies (norm within `SIG_BOUND`); `None` tells the caller to sample
/// again.
pub fn finish_signature(msg: &[u8], salt: &[u8], sk: &SecretKey, z1: &[i16], z2: &[i16]) -> (r:
    Option<Signature>)
    requires
        sk.wf(),
        salt@.len() == SALT_BYTES,
        z1@.len() == N,
        z2@.len() == N,
    ensures
        r is Some <==> signature_found(msg@, salt@, *sk, z1@, z2@),
        r matches Some(sig) ==> {
            let s2 = as_i16(signature_s2(z1@, z2@, sk.f@, sk.big_f@));
            &&& sig.wf()
            &&& sig.salt@ == salt@
            &&& compress_spec(s2, PAYLOAD_BYTES as nat) == Some(bytes_bits(sig.payload@))
            &&& decompress_spec(sig.payload@, N as nat) == Some(s2)
            &&& verify_spec(msg@, salt@, sig.payload@, derive_h(sk.f@, sk.g@))
        },
{
    let a = mul_exact(z1, &sk.f);
    let b = mul_exact(z2, &sk.big_f);
    let ghost want = signature_s2(z1@, z2@, sk.f@, sk.big_f@);
    let mut s2: Vec<i16> = Vec::with_capacity(N);
    let mut k: usize = 0;
    while k < N
        invariant
            k <= N,
            a@.len() == N,
            b@.len() == N,
            z1@.len() == N,
            z2@.len() == N,
            sk.wf(),
            want == signature_s2(z1@, z2@, sk.f@, sk.big_f@),
            forall|t: int| 0 <= t < N ==> #[trigger] a@[t] as int == poly_mul(ints_i16(z1@), ints_i16(sk.f@))[t],
            forall|t: int| 0 <= t < N ==> #[trigger] b@[t] as int == poly_mul(ints_i16(z2@), ints_i16(sk.big_f@))[t],
            forall|t: int| 0 <= t < N ==> -0x400_0000_0000 <= #[trigger] a@[t] <= 0x400_0000_0000,
            forall|t: int| 0 <= t < N ==> -0x400_0000_0000 <= #[trigger] b@[t] <= 0x400_0000_0000,
            s2@ == as_i16(want).take(k as int),
            forall|t: int| 0 <= t < k ==> -S2_MAX <= #[trigger] want[t] <= S2_MAX,
        decreases N - k,
    {
        let v = a[k] + b[k];
        assert(want[k as int] == v);
        if v < -S2_MAX || v > S2_MAX {
            proof {
                assert(!s2_in_range(want));
            }
            return None;
        }
        s2.push(v as i16);
        k += 1;
        assert(s2@ =~= as_i16(want).take(k as int));
    }
    assert(as_i16(want).take(N as int) =~= as_i16(want));
    let ghost s2v = as_i16(want);
    let payload = match compress(&s2, PAYLOAD_BYTES) {
        Some(p) => p,
        None => {
            return None;
        },
    };
    proof {
        assert(short_coefficients(s2v));
        lemma_compress_round_trip(s2v, payload@);
    }
    let sig = Signature { salt: copy_of(salt), payload };
    let pk = PublicKey { h: derive_public(&sk.f, &sk.g) };
    if verify(msg, &sig, &pk) {
        Some(sig)
    } else {
        proof {
            assert forall|p: Seq<u8>|
                p.len() == PAYLOAD_BYTES && compress_spec(s2v, PAYLOAD_BYTES as nat) == Some(
                    bytes_bits(p),
                ) implies !#[trigger] verify_spec(msg@, salt@, p, derive_h(sk.f@, sk.g@)) by {
                lemma_bytes_bits_injective(p, sig.payload@);
            }
        }
        None
    }
}

/// Most sampling attempts that one signing makes before giving up.
pub const MAX_SIGN_ATTEMPTS: u32 = 100;

/// What the signing loop does after one sample.
pub enum SignStep {
    /// The sample gave a signature.
    Done(Signature),
    /// The sample gave no signature; draw another.
    Resample,
    /// The attempts are used up.
    GiveUp,
}

/// One step of the signing loop, whose caller draws the salt once and then
/// samples `(z1, z2)` (attempt `attempt`, counted from zero) until this
/// returns `Done` or `GiveUp`.
pub fn sign_step(
    attempt: u32,
    msg: &[u8],
    salt: &[u8],
    sk: &SecretKey,
    z1: &[i16],
    z2: &[i16],
) -> (r: SignStep)
    requires
        sk.wf(),
        salt@.len() == SALT_BYTES,
        z1@.len() == N,
        z2@.len() == N,
    ensures
        attempt >= MAX_SIGN_ATTEMPTS ==> r is GiveUp,
        attempt < MAX_SIGN_ATTEMPTS ==> (r is Done <==> signature_found(msg@, salt@, *sk, z1@, z2@)),
        attempt < MAX_SIGN_ATTEMPTS ==> (r is Resample <==> !signature_found(
            msg@,
            salt@,
            *sk,
            z1@,
            z2@,
        )),
        r matches SignStep::Done(sig) ==> {
            let s2 = as_i16(signature_s2(z1@, z2@, sk.f@, sk.big_f@));
            &&& sig.wf()
            &&& sig.salt@ == salt@
            &&& decompress_spec(sig.payload@, N as nat) == Some(s2)
            &&& verify_spec(msg@, salt@, sig.payload@, derive_h(sk.f@, sk.g@))
        },
{
    if attempt >= MAX_SIGN_ATTEMPTS {
        return SignStep::GiveUp;
    }
    match finish_signature(msg, salt, sk, z1, z2) {
        Some(sig) => SignStep::Done(sig),
        None => SignStep::Resample,
    }
}

} // verus!
