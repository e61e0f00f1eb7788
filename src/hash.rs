//! Hashing a salted message to a polynomial modulo `q`.
use vstd::prelude::*;
use sha3::Shake256;
use sha3::digest::ExtendableOutput;
use crate::poly::Q;

verus! {

/// The first `len` bytes of the SHAKE256 output on `input`.
pub uninterp spec fn shake256(input: Seq<u8>, len: nat) -> Seq<u8>;

/// Relies on `sha3::Shake256` (through `ExtendableOutput::digest_xof`): fills
/// `len` bytes with the SHAKE256 output on `input`.
#[verifier::external_body]
fn shake256_bytes(input: &[u8], len: usize) -> (r: Vec<u8>)
    ensures
        r@ == shake256(input@, len as nat),
        r@.len() == len,
{
    let mut out = vec![0u8; len];
    Shake256::digest_xof(input, &mut out);
    out
}

/// Largest two-byte value that is accepted, plus one: five times `q`.
pub const ACCEPT_BOUND: u32 = 61445;

/// The two bytes at pair `j` of `s`, read big-endian.
pub open spec fn pair_value(s: Seq<u8>, j: int) -> nat {
    (256 * s[2 * j] + s[2 * j + 1]) as nat
}

/// The coefficients that the first `j` byte pairs of `s` give: a pair below
/// `ACCEPT_BOUND` gives its value modulo `q`, any other pair is skipped.
pub open spec fn samples(s: Seq<u8>, j: nat) -> Seq<u16>
    decreases j,
{
    if j == 0 {
        Seq::empty()
    } else {
        let prev = samples(s, (j - 1) as nat);
        let t = pair_value(s, j - 1);
        if t < ACCEPT_BOUND {
            prev.push((t % (Q as nat)) as u16)
        } else {
            prev
        }
    }
}

/// The first `n` coefficients that the stream `s` gives, if it gives that
/// many.
pub open spec fn points_from(s: Seq<u8>, n: nat) -> Option<Seq<u16>> {
    let all = samples(s, s.len() / 2);
    if all.len() >= n {
        Some(all.take(n as int))
    } else {
        None
    }
}

pub proof fn lemma_samples_prefix(s: Seq<u8>, j: nat, k: nat)
    requires
        j <= k,
    ensures
        samples(s, j).len() <= samples(s, k).len(),
        samples(s, k).take(samples(s, j).len() as int) == samples(s, j),
    decreases k - j,
{
    if j < k {
        lemma_samples_prefix(s, j, (k - 1) as nat);
        let a = samples(s, j);
        let b = samples(s, (k - 1) as nat);
        assert(samples(s, k).take(b.len() as int) =~= b);
        assert(samples(s, k).take(a.len() as int) =~= b.take(a.len() as int));
    } else {
        assert(samples(s, k).take(samples(s, j).len() as int) =~= samples(s, j));
    }
}

pub proof fn lemma_samples_reduced(s: Seq<u8>, j: nat)
    ensures
        forall|i: int| 0 <= i < samples(s, j).len() ==> #[trigger] samples(s, j)[i] < Q,
    decreases j,
{
    if j > 0 {
        lemma_samples_reduced(s, (j - 1) as nat);
        let prev = samples(s, (j - 1) as nat);
        let t = pair_value(s, j - 1);
        assert(t % (Q as nat) < Q as nat);
        assert forall|i: int| 0 <= i < samples(s, j).len() implies #[trigger] samples(s, j)[i] < Q by {
            if i < prev.len() {
                assert(samples(s, j)[i] == prev[i]);
            }
        }
    }
}

/// Takes `n` coefficients from the byte stream `s` as `points_from` says,
/// or `None` when the stream runs out first.
pub fn points_from_stream(s: &[u8], n: usize) -> (r: Option<Vec<u16>>)
    ensures
        match r {
            Some(c) => points_from(s@, n as nat) == Some(c@),
            None => points_from(s@, n as nat) is None,
        },
{
    let slen = s.len();
    let pairs = slen / 2;
    let mut out: Vec<u16> = Vec::with_capacity(n);
    let mut j: usize = 0;
    while j < pairs && out.len() < n
        invariant
            slen == s@.len(),
            pairs == slen / 2,
            j <= pairs,
            out@ == samples(s@, j as nat),
            out@.len() <= n,
        decreases pairs - j,
    {
        assert(2 * j + 1 < slen);
        let i0 = j + j;
        let t = 256 * (s[i0] as u32) + s[i0 + 1] as u32;
        if t < ACCEPT_BOUND {
            out.push((t % Q) as u16);
        }
        j += 1;
    }
    proof {
        lemma_samples_prefix(s@, j as nat, pairs as nat);
    }
    if out.len() < n {
        return None;
    }
    assert(samples(s@, pairs as nat).take(n as int) =~= out@);
    Some(out)
}

/// Number of times the stream is lengthened before hashing gives up.
pub const HASH_ATTEMPTS: usize = 8;

/// The hash of `data` onto `n` coefficients modulo `q`, over SHAKE256 output
/// of `4 * n` bytes, doubled up to `HASH_ATTEMPTS` times until it gives `n`
/// coefficients. Each two-byte pair is kept with probability above nine in
/// ten, so the first length falls short only with vanishing probability.
pub open spec fn hash_attempt(data: Seq<u8>, n: nat, k: nat) -> Option<Seq<u16>>
    decreases HASH_ATTEMPTS - k,
{
    if k >= HASH_ATTEMPTS {
        None
    } else {
        match points_from(shake256(data, 4 * n * vstd::arithmetic::power2::pow2(k)), n) {
            Some(c) => Some(c),
            None => hash_attempt(data, n, k + 1),
        }
    }
}

/// Hashes `data` to `n` coefficients in `[0, q)`, as `hash_attempt` says.
pub fn hash_to_point(data: &[u8], n: usize) -> (r: Option<Vec<u16>>)
    requires
        n <= 1024,
    ensures
        match r {
            Some(c) => hash_attempt(data@, n as nat, 0) == Some(c@) && c@.len() == n && forall|
                i: int,
            | 0 <= i < n ==> #[trigger] c@[i] < Q,
            None => hash_attempt(data@, n as nat, 0) is None,
        },
{
    let mut len: usize = 4 * n;
    let mut k: usize = 0;
    proof {
        vstd::arithmetic::power2::lemma2_to64();
    }
    while k < HASH_ATTEMPTS
        invariant
            n <= 1024,
            k <= HASH_ATTEMPTS,
            k < HASH_ATTEMPTS ==> len == 4 * n * vstd::arithmetic::power2::pow2(k as nat),
            len <= 4 * n * 128,
            hash_attempt(data@, n as nat, 0) == hash_attempt(data@, n as nat, k as nat),
        decreases HASH_ATTEMPTS - k,
    {
        let stream = shake256_bytes(data, len);
        match points_from_stream(&stream, n) {
            Some(c) => {
                proof {
                    lemma_samples_reduced(stream@, stream@.len() / 2);
                }
                return Some(c);
            },
            None => {},
        }
        proof {
            vstd::arithmetic::power2::lemma_pow2_adds(k as nat, 1);
            vstd::arithmetic::power2::lemma2_to64();
            if k + 1 < HASH_ATTEMPTS {
                let p = vstd::arithmetic::power2::pow2(k as nat);
                let p1 = vstd::arithmetic::power2::pow2((k + 1) as nat);
                if k + 1 < 7 {
                    vstd::arithmetic::power2::lemma_pow2_strictly_increases((k + 1) as nat, 7);
                }
                assert(p1 == 2 * p);
                assert(4 * n * p1 <= 4 * n * 128 && 2 * (4 * n * p) == 4 * n * p1)
                    by (nonlinear_arith)
                    requires
                        p1 <= 128,
                        p1 == 2 * p,
                ;
            }
        }
        if k + 1 < HASH_ATTEMPTS {
            len = 2 * len;
        }
        k += 1;
    }
    None
}

} // verus!
