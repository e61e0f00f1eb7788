//! Key pair generation by the `fn-dsa` generator, and the decoding of its
//! output (least significant bit first, unlike the encodings of this crate).
//!
//! Solving the NTRU equation takes floating-point and big-integer arithmetic,
//! which this library does not hold; `fn-dsa` (an independent Falcon
//! implementation) does it with integer arithmetic alone. What it hands back
//! is checked exactly: `f` invertible modulo `q`, the bound on `(g, -f)`, and
//! both key equations.
use vstd::prelude::*;
use fn_dsa::{KeyPairGenerator, KeyPairGenerator512, FN_DSA_LOGN_512};
use rand_chacha::ChaCha20Rng;
use rand_core::SeedableRng;
use crate::bits::bit_of;
use crate::falcon512::{from_twos, has_forbidden, signed_from_fields};

verus! {

/// Bytes of a signing key as the generator writes it.
pub const GEN_SIGN_KEY_BYTES: usize = 1345;

/// Bytes of a verifying key as the generator writes it; this crate derives
/// the public key from the signing key instead.
pub const GEN_VRFY_KEY_BYTES: usize = 897;

/// The signing key that the generator writes for `seed`.
pub uninterp spec fn generated_sign_key(seed: Seq<u8>) -> Seq<u8>;

/// Relies on `fn_dsa::KeyPairGenerator512::keygen`, fed by a ChaCha20 stream
/// seeded with `seed`: it writes an encoded signing key and verifying key of
/// exactly the sizes given to it, and both depend on the seed alone.
#[verifier::external_body]
pub(crate) fn generate_encoded_keys(seed: [u8; 32]) -> (r: (Vec<u8>, Vec<u8>))
    ensures
        r.0@.len() == GEN_SIGN_KEY_BYTES,
        r.1@.len() == GEN_VRFY_KEY_BYTES,
        r.0@ == generated_sign_key(seed@),
{
    let mut rng = ChaCha20Rng::from_seed(seed);
    let mut kg = KeyPairGenerator512::default();
    let mut sign_key = vec![0u8; GEN_SIGN_KEY_BYTES];
    let mut vrfy_key = vec![0u8; GEN_VRFY_KEY_BYTES];
    kg.keygen(FN_DSA_LOGN_512, &mut rng, &mut sign_key, &mut vrfy_key);
    (sign_key, vrfy_key)
}

/// Bit `k` of `s` in the generator's packing: least significant bit of each
/// byte first.
pub open spec fn lsb_bit(s: Seq<u8>, k: int) -> bool {
    bit_of(s[k / 8], 7 - k % 8)
}

/// The value of the `len` bits of `s` from bit `pos` in the generator's
/// packing, the first bit the least significant.
pub open spec fn lsb_value(s: Seq<u8>, pos: int, len: nat) -> nat
    decreases len,
{
    if len == 0 {
        0
    } else {
        2 * lsb_value(s, pos + 1, (len - 1) as nat) + if lsb_bit(s, pos) {
            1nat
        } else {
            0nat
        }
    }
}

/// The `count` signed fields of `w` bits from bit `off`, in the generator's
/// packing.
pub open spec fn lsb_signed_fields(s: Seq<u8>, off: int, w: nat, count: nat) -> Seq<i16> {
    Seq::new(count, |i: int| from_twos(lsb_value(s, off + w * i, w), w) as i16)
}

proof fn lemma_lsb_value_bound(s: Seq<u8>, pos: int, len: nat)
    ensures
        lsb_value(s, pos, len) < vstd::arithmetic::power2::pow2(len),
    decreases len,
{
    if len > 0 {
        lemma_lsb_value_bound(s, pos + 1, (len - 1) as nat);
        vstd::arithmetic::power2::lemma_pow2_unfold(len);
    } else {
        vstd::arithmetic::power2::lemma2_to64();
    }
}

/// Reads the `w`-bit field at bit `off` in the generator's packing.
fn read_lsb_bits(data: &[u8], off: usize, w: usize) -> (r: u32)
    requires
        off + w <= 8 * data@.len(),
        8 * data@.len() <= usize::MAX,
        w <= 16,
    ensures
        r as nat == lsb_value(data@, off as int, w as nat),
{
    proof {
        vstd::arithmetic::power2::lemma2_to64();
    }
    let mut acc: u32 = 0;
    let mut t: usize = 0;
    while t < w
        invariant
            t <= w,
            w <= 16,
            off + w <= 8 * data@.len(),
            8 * data@.len() <= usize::MAX,
            acc as nat == lsb_value(data@, off + w - t, t as nat),
            acc < vstd::arithmetic::power2::pow2(t as nat),
        decreases w - t,
    {
        proof {
            lemma_lsb_value_bound(data@, off + w - t, t as nat);
            vstd::arithmetic::power2::lemma_pow2_unfold((t + 1) as nat);
            vstd::arithmetic::power2::lemma2_to64();
            if t < 15 {
                vstd::arithmetic::power2::lemma_pow2_strictly_increases(t as nat, 15);
            }
        }
        let p = off + w - t - 1;
        let m = (p % 8) as u8;
        let bit = data[p / 8] & (1u8 << m) != 0;
        proof {
            let j = (7 - p % 8) as u8;
            assert((128u8 >> j) == (1u8 << m)) by (bit_vector)
                requires
                    m < 8u8,
                    j == 7u8 - m,
            ;
            assert(lsb_bit(data@, p as int) == bit);
            assert((off + w - t - 1) + 1 == off + w - t);
        }
        acc = 2 * acc + if bit {
            1
        } else {
            0
        };
        t += 1;
    }
    acc
}

/// Reads `count` signed fields of `w` bits from bit `off` in the generator's
/// packing; `None` if one holds `-2^(w - 1)`, which the generator never
/// writes.
pub fn read_lsb_signed(data: &[u8], off: usize, w: usize, count: usize) -> (r: Option<Vec<i16>>)
    requires
        w == 6 || w == 8,
        off + w * count <= 8 * data@.len(),
        8 * data@.len() <= usize::MAX,
    ensures
        match r {
            Some(v) => v@ == lsb_signed_fields(data@, off as int, w as nat, count as nat)
                && !has_forbidden(v@, w as nat),
            None => has_forbidden(lsb_signed_fields(data@, off as int, w as nat, count as nat), w as nat),
        },
{
    let mut vals: Vec<u32> = Vec::with_capacity(count);
    let mut i: usize = 0;
    let mut pos: usize = off;
    while i < count
        invariant
            i <= count,
            w == 6 || w == 8,
            off + w * count <= 8 * data@.len(),
            8 * data@.len() <= usize::MAX,
            pos == off + w * i,
            vals@.len() == i,
            forall|j: int|
                0 <= j < i ==> #[trigger] vals@[j] as nat == lsb_value(data@, off + w * j, w as nat),
            forall|j: int|
                0 <= j < i ==> #[trigger] vals@[j] < vstd::arithmetic::power2::pow2(w as nat),
        decreases count - i,
    {
        assert(pos + w <= off + w * count) by (nonlinear_arith)
            requires
                pos == off + w * i,
                i < count,
        ;
        let v = read_lsb_bits(data, pos, w);
        proof {
            lemma_lsb_value_bound(data@, pos as int, w as nat);
        }
        vals.push(v);
        assert(pos + w == off + w * (i + 1)) by (nonlinear_arith)
            requires
                pos == off + w * i,
        ;
        pos = pos + w;
        i += 1;
    }
    let r = signed_from_fields(&vals, w);
    proof {
        let want = lsb_signed_fields(data@, off as int, w as nat, count as nat);
        assert(Seq::new(vals@.len(), |i: int| from_twos(vals@[i] as nat, w as nat) as i16) =~= want);
    }
    r
}

} // verus!
