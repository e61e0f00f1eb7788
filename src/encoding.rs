//! Compression and decompression of signature coefficients.
//!
//! Each coefficient is written as one sign bit (set for a negative value),
//! the seven low bits of its absolute value, and the remaining high part of
//! the absolute value in unary: that many zero bits and a closing one bit.
use vstd::prelude::*;
use crate::bits::{
    bit_of, bytes_bits, zero_bits, byte_bits, bits_value, lemma_set_bit, lemma_bits_value_bound,
    lemma_bits_value_agree, lemma_low_bits_value,
};
use bit_vec::BitVec;

verus! {

/// Absolute value of a coefficient.
pub open spec fn abs_of(c: i16) -> nat {
    if c < 0 {
        (-(c as int)) as nat
    } else {
        c as nat
    }
}

/// High part of a coefficient's absolute value, written in unary.
pub open spec fn high_of(c: i16) -> nat {
    abs_of(c) / 128
}

/// The first byte of a coefficient's code: the sign bit, then the seven low
/// bits of the absolute value.
pub open spec fn head_of(c: i16) -> u8 {
    ((if c < 0 {
        128int
    } else {
        0int
    }) + abs_of(c) % 128) as u8
}

/// The code of one coefficient.
pub open spec fn codeword(c: i16) -> Seq<bool> {
    byte_bits(head_of(c)) + zero_bits(high_of(c)) + seq![true]
}

/// The codes of all coefficients of `v`, one after the other.
pub open spec fn encode_all(v: Seq<i16>) -> Seq<bool>
    decreases v.len(),
{
    if v.len() == 0 {
        Seq::empty()
    } else {
        encode_all(v.drop_last()) + codeword(v.last())
    }
}

/// What compressing `v` into `byte_length` bytes yields: the codes,
/// zero-padded to the full length, or nothing when `v` is empty or its codes
/// do not fit.
pub open spec fn compress_spec(v: Seq<i16>, byte_length: nat) -> Option<Seq<bool>> {
    let e = encode_all(v);
    if v.len() == 0 || e.len() > 8 * byte_length {
        None
    } else {
        Some(e + zero_bits((8 * byte_length - e.len()) as nat))
    }
}

pub proof fn lemma_encode_all_step(v: Seq<i16>, i: int)
    requires
        0 <= i < v.len(),
    ensures
        encode_all(v.take(i + 1)) == encode_all(v.take(i)) + codeword(v[i]),
        encode_all(v.take(i + 1)).len() == encode_all(v.take(i)).len() + 9 + high_of(v[i]),
{
    assert(v.take(i + 1).drop_last() =~= v.take(i));
}

pub proof fn lemma_encode_all_prefix_len(v: Seq<i16>, i: int, j: int)
    requires
        0 <= i <= j <= v.len(),
    ensures
        encode_all(v.take(i)).len() <= encode_all(v.take(j)).len(),
    decreases j - i,
{
    if i < j {
        lemma_encode_all_step(v, j - 1);
        lemma_encode_all_prefix_len(v, i, j - 1);
    }
}

/// Length of a coefficient's code and its first byte.
pub fn compress_coefficient(coeff: i16) -> (r: (usize, u8))
    ensures
        r.0 == 9 + high_of(coeff),
        r.1 == head_of(coeff),
{
    let abs: u16 = if coeff < 0 {
        (-(coeff as i32)) as u16
    } else {
        coeff as u16
    };
    let low = (abs % 128) as u8;
    let high = abs / 128;
    let head = if coeff < 0 {
        128u8 + low
    } else {
        low
    };
    (1 + 7 + high as usize + 1, head)
}

/// A byte string of `n` zeros.
pub(crate) fn zero_bytes(n: usize) -> (r: Vec<u8>)
    ensures
        r@ == Seq::new(n as nat, |i: int| 0u8),
{
    let mut r: Vec<u8> = Vec::with_capacity(n);
    let mut i: usize = 0;
    while i < n
        invariant
            i <= n,
            r@ == Seq::new(i as nat, |k: int| 0u8),
        decreases n - i,
    {
        r.push(0u8);
        i += 1;
        assert(r@ =~= Seq::new(i as nat, |k: int| 0u8));
    }
    r
}

/// Sets bit `p` (most significant bit of each byte first) of `bytes`.
pub(crate) fn set_bit(bytes: &mut Vec<u8>, p: usize)
    requires
        p < 8 * old(bytes)@.len(),
    ensures
        bytes_bits(final(bytes)@) == bytes_bits(old(bytes)@).update(p as int, true),
        final(bytes)@.len() == old(bytes)@.len(),
{
    proof {
        lemma_set_bit(bytes@, p as int);
    }
    let i = p / 8;
    let m = (p % 8) as u8;
    let b = bytes[i] | (128u8 >> m);
    bytes.set(i, b);
}

/// Writes the codes of the coefficients of `v` into `byte_length` bytes,
/// zero-padded. Returns `None` when `v` is empty or when the codes need more
/// than `8 * byte_length` bits.
pub fn compress(v: &[i16], byte_length: usize) -> (r: Option<Vec<u8>>)
    requires
        byte_length <= (usize::MAX - 512) / 8,
    ensures
        match r {
            Some(out) => out@.len() == byte_length && compress_spec(v@, byte_length as nat)
                == Some(bytes_bits(out@)),
            None => compress_spec(v@, byte_length as nat) is None,
        },
{
    let cap = byte_length * 8;
    // total length of the codes, given up on as soon as it exceeds the budget
    let mut total: usize = 0;
    let mut i: usize = 0;
    while i < v.len()
        invariant
            i <= v@.len(),
            cap == 8 * byte_length,
            cap <= usize::MAX - 512,
            total == encode_all(v@.take(i as int)).len(),
            total <= cap,
        decreases v@.len() - i,
    {
        let (length, _head) = compress_coefficient(v[i]);
        proof {
            lemma_encode_all_step(v@, i as int);
        }
        total = total + length;
        if total > cap {
            proof {
                lemma_encode_all_prefix_len(v@, i + 1, v@.len() as int);
                assert(v@.take(v@.len() as int) =~= v@);
            }
            return None;
        }
        i += 1;
    }
    assert(v@.take(v@.len() as int) =~= v@);
    if v.len() == 0 {
        return None;
    }
    let mut bytes = zero_bytes(byte_length);
    assert forall|k: int| 0 <= k < cap implies !#[trigger] bytes_bits(bytes@)[k] by {
        let y = 128u8 >> ((k % 8) as u8);
        assert(0u8 & y == 0u8) by (bit_vector);
    }
    let mut pos: usize = 0;
    let mut i: usize = 0;
    while i < v.len()
        invariant
            i <= v@.len(),
            cap == 8 * byte_length,
            total == encode_all(v@).len(),
            total <= cap,
            bytes@.len() == byte_length,
            pos == encode_all(v@.take(i as int)).len(),
            pos <= total,
            forall|k: int|
                0 <= k < cap ==> #[trigger] bytes_bits(bytes@)[k] == (k < pos && encode_all(
                    v@.take(i as int),
                )[k]),
        decreases v@.len() - i,
    {
        let ghost e = encode_all(v@.take(i as int));
        let (length, head) = compress_coefficient(v[i]);
        proof {
            lemma_encode_all_step(v@, i as int);
            lemma_encode_all_prefix_len(v@, i + 1, v@.len() as int);
            assert(v@.take(v@.len() as int) =~= v@);
        }
        let mut j: u8 = 0;
        while j < 8
            invariant
                j <= 8,
                i < v@.len(),
                cap == 8 * byte_length,
                bytes@.len() == byte_length,
                pos + length <= cap,
                length == 9 + high_of(v@[i as int]),
                head == head_of(v@[i as int]),
                forall|k: int|
                    0 <= k < cap ==> #[trigger] bytes_bits(bytes@)[k] == ((k < pos && e[k]) || (
                    pos <= k < pos + j && bit_of(head, k - pos))),
            decreases 8 - j,
        {
            if head & (128u8 >> j) != 0 {
                set_bit(&mut bytes, pos + j as usize);
            }
            j += 1;
        }
        set_bit(&mut bytes, pos + length - 1);
        proof {
            let e2 = encode_all(v@.take(i + 1));
            let c = v@[i as int];
            assert(e2 == e + codeword(c));
            assert forall|k: int| 0 <= k < cap implies #[trigger] bytes_bits(bytes@)[k] == (k < pos
                + length && e2[k]) by {
                if pos <= k < pos + length {
                    let t = k - pos;
                    assert(e2[k] == codeword(c)[t]);
                    if t < 8 {
                        assert(codeword(c)[t] == byte_bits(head)[t]);
                    } else if t < 8 + high_of(c) {
                        assert(codeword(c)[t] == zero_bits(high_of(c))[t - 8]);
                    }
                }
            }
        }
        pos = pos + length;
        i += 1;
    }
    assert(v@.take(v@.len() as int) =~= v@);
    assert(bytes_bits(bytes@) =~= encode_all(v@) + zero_bits((cap - total) as nat));
    Some(bytes)
}

#[verifier::external_type_specification]
#[verifier::external_body]
#[verifier::reject_recursive_types(B)]
pub struct ExBitVec<B>(BitVec<B>);

/// The bits a `BitVec` holds, in order.
pub uninterp spec fn bitvec_bits(v: BitVec) -> Seq<bool>;

/// Relies on `bit_vec::BitVec::from_bytes`: eight bits per byte, the most
/// significant bit of each byte first.
#[verifier::external_body]
fn bitvec_from_bytes(x: &[u8]) -> (r: BitVec)
    requires
        8 * x@.len() <= usize::MAX,
    ensures
        bitvec_bits(r) == bytes_bits(x@),
{
    BitVec::from_bytes(x)
}

/// Relies on `bit_vec::BitVec::len`: the number of bits held.
#[verifier::external_body]
fn bitvec_len(v: &BitVec) -> (r: usize)
    ensures
        r == bitvec_bits(*v).len(),
{
    v.len()
}

/// Relies on indexing a `bit_vec::BitVec`: bit `i`, which must exist.
#[verifier::external_body]
fn bitvec_bit(v: &BitVec, i: usize) -> (r: bool)
    requires
        i < bitvec_bits(*v).len(),
    ensures
        r == bitvec_bits(*v)[i as int],
{
    v[i]
}

/// Longest run of zero bits that the unary part of a code may hold, plus one.
pub const MAX_HIGH_RUN: u16 = 95;

/// Number of zero bits of `b` from `start` up to the first one bit or the end.
pub open spec fn zero_run(b: Seq<bool>, start: int) -> nat
    decreases b.len() - start,
{
    if 0 <= start < b.len() && !b[start] {
        1 + zero_run(b, start + 1)
    } else {
        0
    }
}

/// Reads one code at `pos`: the coefficient and the position after the code,
/// or `None` where no well-formed code stands there. A code is refused when
/// its unary part is not closed before the end, is `MAX_HIGH_RUN` bits or
/// longer, or when it writes zero with the sign bit set.
pub open spec fn parse_at(b: Seq<bool>, pos: int) -> Option<(i16, int)> {
    if pos + 8 >= b.len() {
        None
    } else {
        let h = zero_run(b, pos + 8);
        if h >= MAX_HIGH_RUN || pos + 8 + h >= b.len() {
            None
        } else {
            let low = bits_value(b, pos + 1, 7);
            let negative = b[pos];
            if negative && low == 0 && h == 0 {
                None
            } else {
                let mag: int = (low + 128 * h) as int;
                Some(((if negative { -mag } else { mag }) as i16, pos + 9 + h))
            }
        }
    }
}

/// Reads `k` codes from the start of `b`.
pub open spec fn parse_n(b: Seq<bool>, k: nat) -> Option<(Seq<i16>, int)>
    decreases k,
{
    if k == 0 {
        Some((Seq::empty(), 0))
    } else {
        match parse_n(b, (k - 1) as nat) {
            Some((s, p)) => match parse_at(b, p) {
                Some((c, p2)) => Some((s.push(c), p2)),
                None => None,
            },
            None => None,
        }
    }
}

/// What decompressing `x` into `n` coefficients yields: the `n` codes at its
/// start, provided every bit after them is zero. No input decodes to zero
/// coefficients, as no empty vector is compressed.
pub open spec fn decompress_spec(x: Seq<u8>, n: nat) -> Option<Seq<i16>> {
    let b = bytes_bits(x);
    if n == 0 {
        None
    } else {
        match parse_n(b, n) {
        Some((s, end)) => if forall|k: int| end <= k < b.len() ==> !#[trigger] b[k] {
            Some(s)
        } else {
            None
        },
        None => None,
    }
    }
}

pub proof fn lemma_zero_run(b: Seq<bool>, start: int, m: nat)
    requires
        0 <= start,
        start + m <= b.len(),
        forall|t: int| 0 <= t < m ==> !#[trigger] b[start + t],
    ensures
        zero_run(b, start) == m + zero_run(b, start + m),
    decreases m,
{
    if m > 0 {
        assert(!b[start + 0]);
        assert forall|t: int| 0 <= t < m - 1 implies !#[trigger] b[(start + 1) + t] by {
            assert(!b[start + (t + 1)]);
        }
        lemma_zero_run(b, start + 1, (m - 1) as nat);
    }
}

pub proof fn lemma_parse_n_len(b: Seq<bool>, k: nat)
    ensures
        parse_n(b, k) matches Some((s, p)) ==> s.len() == k,
    decreases k,
{
    if k > 0 {
        lemma_parse_n_len(b, (k - 1) as nat);
    }
}

pub proof fn lemma_parse_n_stops(b: Seq<bool>, i: nat, n: nat)
    requires
        i < n,
        parse_n(b, i + 1) is None,
    ensures
        parse_n(b, n) is None,
    decreases n - i,
{
    if i + 1 < n {
        lemma_parse_n_stops(b, i, (n - 1) as nat);
    }
}

/// Reads `n` coefficients from `x`, and checks that the bits after them are
/// all zero. Returns `None` on a truncated or malformed input.
pub fn decompress(x: &[u8], n: usize) -> (r: Option<Vec<i16>>)
    requires
        8 * x@.len() <= usize::MAX,
    ensures
        match r {
            Some(v) => decompress_spec(x@, n as nat) == Some(v@) && v@.len() == n,
            None => decompress_spec(x@, n as nat) is None,
        },
{
    if n == 0 {
        return None;
    }
    let bitvector = bitvec_from_bytes(x);
    let len = bitvec_len(&bitvector);
    let ghost b = bytes_bits(x@);
    let mut index: usize = 0;
    let mut result: Vec<i16> = Vec::with_capacity(n);
    let mut i: usize = 0;
    while i < n
        invariant
            i <= n,
            bitvec_bits(bitvector) == b,
                b == bytes_bits(x@),
            len == b.len(),
            index <= len,
            parse_n(b, i as nat) == Some((result@, index as int)),
        decreases n - i,
    {
        proof {
            reveal_with_fuel(parse_n, 2);
        }
        if len <= 8 || index >= len - 8 {
            proof {
                assert(parse_at(b, index as int) is None);
                lemma_parse_n_stops(b, i as nat, n as nat);
            }
            return None;
        }
        let ghost start = index as int;
        let negative = bitvec_bit(&bitvector, index);
        index += 1;
        let mut low: u16 = 0;
        let mut j: usize = 0;
        while j < 7
            invariant
                j <= 7,
                index == start + 1 + j,
                0 <= start,
                start + 8 < len,
                bitvec_bits(bitvector) == b,
                b == bytes_bits(x@),
                len == b.len(),
                low == bits_value(b, start + 1, j as nat),
            decreases 7 - j,
        {
            proof {
                lemma_bits_value_bound(b, start + 1, j as nat);
                vstd::arithmetic::power2::lemma2_to64();
                vstd::arithmetic::power2::lemma_pow2_strictly_increases(j as nat, 7);
            }
            let bit = bitvec_bit(&bitvector, index);
            low = 2 * low + if bit {
                1
            } else {
                0
            };
            index += 1;
            j += 1;
        }
        proof {
            lemma_bits_value_bound(b, start + 1, 7);
            vstd::arithmetic::power2::lemma2_to64();
        }
        let mut high: u16 = 0;
        while !bitvec_bit(&bitvector, index)
            invariant
                index == start + 8 + high,
                0 <= start,
                i < n,
                parse_n(b, i as nat) == Some((result@, start)),
                index < len,
                high < MAX_HIGH_RUN,
                bitvec_bits(bitvector) == b,
                b == bytes_bits(x@),
                len == b.len(),
                forall|t: int| 0 <= t < high ==> !#[trigger] b[start + 8 + t],
            decreases len - index,
        {
            index += 1;
            high += 1;
            if high == MAX_HIGH_RUN || index == len {
                proof {
                    lemma_zero_run(b, start + 8, high as nat);
                    assert(parse_at(b, start) is None);
                    lemma_parse_n_stops(b, i as nat, n as nat);
                }
                return None;
            }
        }
        proof {
            lemma_zero_run(b, start + 8, high as nat);
            assert(zero_run(b, index as int) == 0);
        }
        if negative && low == 0 && high == 0 {
            proof {
                assert(parse_at(b, start) is None);
                lemma_parse_n_stops(b, i as nat, n as nat);
            }
            return None;
        }
        let mag = (high * 128 + low) as i16;
        let coefficient = if negative {
            -mag
        } else {
            mag
        };
        proof {
            assert(parse_at(b, start) == Some((coefficient, index + 1)));
        }
        result.push(coefficient);
        index += 1;
        i += 1;
    }
    let mut k = index;
    while k < len
        invariant
            index <= k <= len,
            parse_n(b, n as nat) == Some((result@, index as int)),
            bitvec_bits(bitvector) == b,
                b == bytes_bits(x@),
            len == b.len(),
            forall|t: int| index <= t < k ==> !#[trigger] b[t],
        decreases len - k,
    {
        if bitvec_bit(&bitvector, k) {
            proof {
                assert(b[k as int]);
            }
            return None;
        }
        k += 1;
    }
    proof {
        lemma_parse_n_len(b, n as nat);
    }
    Some(result)
}

/// Coefficients small enough for their codes to be read back: the unary part
/// of each stays below `MAX_HIGH_RUN` bits.
pub open spec fn short_coefficients(v: Seq<i16>) -> bool {
    forall|i: int| 0 <= i < v.len() ==> -12160 < #[trigger] v[i] < 12160
}

/// One code read at `p`, where the bits of `b` from `p` are the code of `c`.
proof fn lemma_parse_codeword(b: Seq<bool>, p: int, c: i16)
    requires
        0 <= p,
        -12160 < c < 12160,
        p + codeword(c).len() <= b.len(),
        forall|t: int| 0 <= t < codeword(c).len() ==> #[trigger] b[p + t] == codeword(c)[t],
    ensures
        parse_at(b, p) == Some((c, p + codeword(c).len())),
{
    let cw = codeword(c);
    let head = head_of(c);
    let high = high_of(c);
    assert(cw.len() == 9 + high);
    assert(high < MAX_HIGH_RUN);
    // the unary part
    assert forall|t: int| 0 <= t < high implies !#[trigger] b[(p + 8) + t] by {
        assert(b[p + (8 + t)] == cw[8 + t]);
    }
    lemma_zero_run(b, p + 8, high);
    assert(b[p + (8 + high)] == cw[8 + high as int]);
    assert(zero_run(b, p + 8 + high) == 0);
    // the low bits
    assert forall|t: int| 0 <= t < 7 implies #[trigger] b[(p + 1) + t] == byte_bits(head)[1 + t] by {
        assert(b[p + (1 + t)] == cw[1 + t]);
    }
    lemma_bits_value_agree(b, p + 1, byte_bits(head), 1, 7);
    lemma_low_bits_value(head);
    // the sign bit
    assert(b[p + 0] == cw[0]);
    assert(((head & 128u8) != 0u8) == (head >= 128u8)) by (bit_vector);
    assert((0int as u8) == 0u8);
    assert((128u8 >> 0u8) == 128u8) by (bit_vector);
}

/// The codes of the first `k` coefficients of `v`, found at the start of `b`,
/// read back as those coefficients.
pub proof fn lemma_parse_prefix(b: Seq<bool>, v: Seq<i16>, k: nat)
    requires
        k <= v.len(),
        short_coefficients(v),
        encode_all(v.take(k as int)).len() <= b.len(),
        forall|t: int|
            0 <= t < encode_all(v.take(k as int)).len() ==> #[trigger] b[t] == encode_all(
                v.take(k as int),
            )[t],
    ensures
        parse_n(b, k) == Some((v.take(k as int), encode_all(v.take(k as int)).len() as int)),
    decreases k,
{
    if k == 0 {
        assert(v.take(0) =~= Seq::<i16>::empty());
    } else {
        let j = (k - 1) as int;
        lemma_encode_all_step(v, j);
        let e = encode_all(v.take(j));
        let c = v[j];
        assert forall|t: int| 0 <= t < e.len() implies #[trigger] b[t] == e[t] by {
            assert(encode_all(v.take(k as int))[t] == e[t]);
        }
        lemma_parse_prefix(b, v, (k - 1) as nat);
        assert forall|t: int| 0 <= t < codeword(c).len() implies #[trigger] b[e.len() + t]
            == codeword(c)[t] by {
            assert(encode_all(v.take(k as int))[e.len() + t] == codeword(c)[t]);
        }
        lemma_parse_codeword(b, e.len() as int, c);
        assert(v.take(j).push(c) =~= v.take(k as int));
    }
}

/// Decompressing what compression wrote gives back the coefficients, when
/// each is below 12160 in absolute value (so below 2048 in particular).
pub proof fn lemma_compress_round_trip(v: Seq<i16>, x: Seq<u8>)
    requires
        short_coefficients(v),
        compress_spec(v, x.len()) == Some(bytes_bits(x)),
    ensures
        decompress_spec(x, v.len()) == Some(v),
{
    let e = encode_all(v);
    let b = bytes_bits(x);
    assert(v.take(v.len() as int) =~= v);
    assert(b == e + zero_bits((8 * x.len() - e.len()) as nat));
    assert forall|t: int| 0 <= t < e.len() implies #[trigger] b[t] == e[t] by {}
    lemma_parse_prefix(b, v, v.len());
    assert forall|k: int| e.len() <= k < b.len() implies !#[trigger] b[k] by {
        assert(b[k] == zero_bits((8 * x.len() - e.len()) as nat)[k - e.len()]);
    }
}

/// Byte strings with the same bits are the same.
pub proof fn lemma_bytes_bits_injective(x: Seq<u8>, y: Seq<u8>)
    requires
        x.len() == y.len(),
        bytes_bits(x) == bytes_bits(y),
    ensures
        x == y,
{
    assert forall|i: int| 0 <= i < x.len() implies x[i] == y[i] by {
        let a = x[i];
        let c = y[i];
        assert forall|j: int| 0 <= j < 8 implies bit_of(a, j) == bit_of(c, j) by {
            let k = 8 * i + j;
            assert(k / 8 == i && k % 8 == j);
            assert(0 <= k < 8 * x.len());
            assert(bytes_bits(x)[k] == bit_of(x[k / 8], k % 8));
            assert(bytes_bits(y)[k] == bit_of(y[k / 8], k % 8));
            assert(bytes_bits(x)[k] == bytes_bits(y)[k]);
        }
        assert((0int as u8) == 0u8 && (1int as u8) == 1u8 && (2int as u8) == 2u8 && (3int as u8)
            == 3u8 && (4int as u8) == 4u8 && (5int as u8) == 5u8 && (6int as u8) == 6u8 && (
        7int as u8) == 7u8);
        assert((128u8 >> 0u8) == 128u8 && (128u8 >> 1u8) == 64u8 && (128u8 >> 2u8) == 32u8 && (
        128u8 >> 3u8) == 16u8 && (128u8 >> 4u8) == 8u8 && (128u8 >> 5u8) == 4u8 && (128u8
            >> 6u8) == 2u8 && (128u8 >> 7u8) == 1u8) by (bit_vector);
        assert(bit_of(a, 0) == bit_of(c, 0) && bit_of(a, 1) == bit_of(c, 1) && bit_of(a, 2)
            == bit_of(c, 2) && bit_of(a, 3) == bit_of(c, 3) && bit_of(a, 4) == bit_of(c, 4)
            && bit_of(a, 5) == bit_of(c, 5) && bit_of(a, 6) == bit_of(c, 6) && bit_of(a, 7)
            == bit_of(c, 7));
        assert(a == c) by (bit_vector)
            requires
                ((a & 128u8) != 0u8) == ((c & 128u8) != 0u8),
                ((a & 64u8) != 0u8) == ((c & 64u8) != 0u8),
                ((a & 32u8) != 0u8) == ((c & 32u8) != 0u8),
                ((a & 16u8) != 0u8) == ((c & 16u8) != 0u8),
                ((a & 8u8) != 0u8) == ((c & 8u8) != 0u8),
                ((a & 4u8) != 0u8) == ((c & 4u8) != 0u8),
                ((a & 2u8) != 0u8) == ((c & 2u8) != 0u8),
                ((a & 1u8) != 0u8) == ((c & 1u8) != 0u8),
        ;
    }
    assert(x =~= y);
}

/// Compressing the same coefficients into the same length twice gives the
/// same bytes; with the round trip, re-compressing what decompression gives
/// back reproduces the input bytes.
pub proof fn lemma_compress_deterministic(v: Seq<i16>, x: Seq<u8>, y: Seq<u8>)
    requires
        x.len() == y.len(),
        compress_spec(v, x.len()) == Some(bytes_bits(x)),
        compress_spec(v, y.len()) == Some(bytes_bits(y)),
    ensures
        x == y,
{
    lemma_bytes_bits_injective(x, y);
}

/// Decompression refuses an input with a set bit after the `n` codes.
pub proof fn lemma_rejects_set_padding(x: Seq<u8>, n: nat, k: int)
    requires
        parse_n(bytes_bits(x), n) matches Some((s, end)) && end <= k < bytes_bits(x).len(),
        bytes_bits(x)[k],
    ensures
        decompress_spec(x, n) is None,
{
}

/// Decompression refuses zero written with the sign bit set, at any of the
/// `n` positions.
pub proof fn lemma_rejects_negative_zero(x: Seq<u8>, n: nat, i: nat)
    requires
        i < n,
        parse_n(bytes_bits(x), i) matches Some((s, p)) && p + 8 < bytes_bits(x).len()
            && bytes_bits(x)[p] && bits_value(bytes_bits(x), p + 1, 7) == 0 && zero_run(
            bytes_bits(x),
            p + 8,
        ) == 0,
    ensures
        decompress_spec(x, n) is None,
{
    let b = bytes_bits(x);
    reveal_with_fuel(parse_n, 2);
    assert(parse_n(b, i + 1) is None);
    lemma_parse_n_stops(b, i, n);
}

proof fn lemma_find_cut(v: Seq<i16>, cut: int, j: int) -> (k: int)
    requires
        0 <= cut,
        0 < j <= v.len(),
        cut < encode_all(v.take(j)).len(),
    ensures
        0 <= k < j,
        encode_all(v.take(k)).len() <= cut < encode_all(v.take(k + 1)).len(),
    decreases j,
{
    lemma_encode_all_step(v, j - 1);
    if encode_all(v.take(j - 1)).len() <= cut {
        j - 1
    } else {
        assert(j - 1 > 0) by {
            assert(v.take(0) =~= Seq::<i16>::empty());
        }
        lemma_find_cut(v, cut, j - 1)
    }
}

/// Decompression refuses the output of compression cut short before the
/// closing bit of the last code.
pub proof fn lemma_rejects_truncated(v: Seq<i16>, x: Seq<u8>, m: int)
    requires
        short_coefficients(v),
        compress_spec(v, x.len()) == Some(bytes_bits(x)),
        0 <= m,
        8 * m < encode_all(v).len(),
    ensures
        decompress_spec(x.take(m), v.len()) is None,
{
    let e = encode_all(v);
    let full = bytes_bits(x);
    let b = bytes_bits(x.take(m));
    let cut = 8 * m;
    assert(v.take(v.len() as int) =~= v);
    assert(full == e + zero_bits((8 * x.len() - e.len()) as nat));
    assert(b.len() == cut);
    assert forall|t: int| 0 <= t < cut implies #[trigger] b[t] == e[t] by {
        assert(full[t] == e[t]);
        assert(x.take(m)[t / 8] == x[t / 8]);
    }
    let k = lemma_find_cut(v, cut, v.len() as int);
    lemma_encode_all_step(v, k);
    lemma_encode_all_prefix_len(v, k + 1, v.len() as int);
    let ek = encode_all(v.take(k));
    let ek1 = encode_all(v.take(k + 1));
    let c = v[k];
    let p = ek.len() as int;
    // the first k codes are read as they were written
    assert forall|t: int| 0 <= t < ek.len() implies #[trigger] b[t] == ek[t] by {
        lemma_encode_all_prefix_len(v, k, k + 1);
        assert(ek1[t] == ek[t]);
        lemma_encode_all_prefix_of_all(v, k + 1, t);
    }
    lemma_parse_prefix(b, v, k as nat);
    // the code of v[k] runs past the end
    if p + 8 < cut {
        let m0 = (cut - (p + 8)) as nat;
        assert forall|t: int| 0 <= t < m0 implies !#[trigger] b[(p + 8) + t] by {
            lemma_encode_all_prefix_of_all(v, k + 1, p + 8 + t);
            assert(ek1[p + 8 + t] == codeword(c)[8 + t]);
            assert(codeword(c)[8 + t] == zero_bits(high_of(c))[t]);
        }
        lemma_zero_run(b, p + 8, m0);
    }
    assert(parse_at(b, p) is None);
    reveal_with_fuel(parse_n, 2);
    assert(parse_n(b, (k + 1) as nat) is None);
    lemma_parse_n_stops(b, k as nat, v.len());
}

/// The code of a prefix of `v` is a prefix of the code of `v`.
pub proof fn lemma_encode_all_prefix_of_all(v: Seq<i16>, j: int, t: int)
    requires
        0 <= j <= v.len(),
        0 <= t < encode_all(v.take(j)).len(),
    ensures
        t < encode_all(v).len(),
        encode_all(v)[t] == encode_all(v.take(j))[t],
    decreases v.len() - j,
{
    if j == v.len() {
        assert(v.take(j) =~= v);
    } else {
        lemma_encode_all_step(v, j);
        lemma_encode_all_prefix_of_all(v, j + 1, t);
    }
}

proof fn lemma_zero_run_facts(b: Seq<bool>, start: int)
    requires
        0 <= start,
    ensures
        forall|t: int| 0 <= t < zero_run(b, start) ==> !#[trigger] b[start + t],
        start + zero_run(b, start) < b.len() ==> b[start + zero_run(b, start)],
        start + zero_run(b, start) <= b.len() || start >= b.len(),
    decreases b.len() - start,
{
    if 0 <= start < b.len() && !b[start] {
        lemma_zero_run_facts(b, start + 1);
        assert forall|t: int| 0 <= t < zero_run(b, start) implies !#[trigger] b[start + t] by {
            if t > 0 {
                assert(b[(start + 1) + (t - 1)] == b[start + t]);
            }
        }
    }
}

proof fn lemma_bits_value_injective(a: Seq<bool>, pa: int, c: Seq<bool>, pc: int, len: nat)
    requires
        bits_value(a, pa, len) == bits_value(c, pc, len),
    ensures
        forall|t: int| 0 <= t < len ==> #[trigger] a[pa + t] == c[pc + t],
    decreases len,
{
    if len > 0 {
        let l = (len - 1) as nat;
        lemma_bits_value_injective(a, pa, c, pc, l);
        assert(a[pa + l] == c[pc + l]);
        assert forall|t: int| 0 <= t < len implies #[trigger] a[pa + t] == c[pc + t] by {
            if t < l {
                assert(a[pa + t] == c[pc + t]);
            }
        }
    }
}

/// A code read at `p` is, bit for bit, the code of the coefficient read.
proof fn lemma_parse_at_is_codeword(b: Seq<bool>, p: int)
    requires
        0 <= p,
        parse_at(b, p) is Some,
    ensures
        parse_at(b, p) matches Some((c, q)) ==> {
            &&& q == p + codeword(c).len()
            &&& forall|t: int| 0 <= t < codeword(c).len() ==> #[trigger] b[p + t] == codeword(c)[t]
        },
{
    let h = zero_run(b, p + 8);
    let low = bits_value(b, p + 1, 7);
    let negative = b[p];
    let (c, q) = parse_at(b, p)->0;
    lemma_bits_value_bound(b, p + 1, 7);
    vstd::arithmetic::power2::lemma2_to64();
    let mag: int = (low + 128 * h) as int;
    assert(abs_of(c) == mag);
    assert(high_of(c) == h);
    let head = head_of(c);
    assert(head as int == (if negative { 128int } else { 0int }) + low);
    let cw = codeword(c);
    lemma_zero_run_facts(b, p + 8);
    lemma_low_bits_value(head);
    assert(head % 128 == low);
    lemma_bits_value_injective(b, p + 1, byte_bits(head), 1, 7);
    assert(((head & 128u8) != 0u8) == (head >= 128u8)) by (bit_vector);
    assert((0int as u8) == 0u8);
    assert((128u8 >> 0u8) == 128u8) by (bit_vector);
    assert forall|t: int| 0 <= t < cw.len() implies #[trigger] b[p + t] == cw[t] by {
        if t == 0 {
            assert(cw[0] == byte_bits(head)[0]);
        } else if t < 8 {
            assert(cw[t] == byte_bits(head)[t]);
            assert(b[(p + 1) + (t - 1)] == byte_bits(head)[1 + (t - 1)]);
        } else if t < 8 + h {
            assert(cw[t] == zero_bits(h)[t - 8]);
            assert(!b[(p + 8) + (t - 8)]);
        } else {
            assert(t == 8 + h);
            assert(b[(p + 8) + h]);
        }
    }
}

/// The bits that `n` codes were read from are the codes of what was read.
proof fn lemma_parse_n_is_encoding(b: Seq<bool>, k: nat)
    requires
        parse_n(b, k) is Some,
    ensures
        parse_n(b, k) matches Some((s, p)) ==> {
            &&& p == encode_all(s).len()
            &&& p <= b.len()
            &&& forall|t: int| 0 <= t < p ==> #[trigger] b[t] == encode_all(s)[t]
        },
    decreases k,
{
    if k > 0 {
        lemma_parse_n_is_encoding(b, (k - 1) as nat);
        let (s0, p0) = parse_n(b, (k - 1) as nat)->0;
        let (c, p1) = parse_at(b, p0)->0;
        let s = s0.push(c);
        assert(p0 >= 0);
        lemma_parse_at_is_codeword(b, p0);
        assert(s.drop_last() =~= s0);
        assert(encode_all(s) == encode_all(s0) + codeword(c));
        assert forall|t: int| 0 <= t < p1 implies #[trigger] b[t] == encode_all(s)[t] by {
            if t >= p0 {
                assert(b[p0 + (t - p0)] == codeword(c)[t - p0]);
            }
        }
    }
}

/// Decoding is canonical: every input that decompresses to `v` is exactly
/// what compressing `v` into its length writes.
pub proof fn lemma_decompress_canonical(x: Seq<u8>, n: nat)
    requires
        decompress_spec(x, n) is Some,
    ensures
        decompress_spec(x, n) matches Some(v) ==> compress_spec(v, x.len()) == Some(bytes_bits(x)),
{
    let b = bytes_bits(x);
    lemma_parse_n_is_encoding(b, n);
    lemma_parse_n_len(b, n);
    let (v, end) = parse_n(b, n)->0;
    let e = encode_all(v);
    assert(b =~= e + zero_bits((8 * x.len() - e.len()) as nat)) by {
        assert forall|k: int| 0 <= k < b.len() implies #[trigger] b[k] == (e + zero_bits(
            (8 * x.len() - e.len()) as nat,
        ))[k] by {
            if k >= end {
                assert(!b[k]);
            }
        }
    }
}

/// Decompression refuses an input whose code at some position among the `n`
/// is not closed before the input ends.
pub proof fn lemma_rejects_unclosed(x: Seq<u8>, n: nat, i: nat)
    requires
        i < n,
        parse_n(bytes_bits(x), i) matches Some((s, p)) && (p + 8 >= bytes_bits(x).len() || p + 8
            + zero_run(bytes_bits(x), p + 8) >= bytes_bits(x).len()),
    ensures
        decompress_spec(x, n) is None,
{
    let b = bytes_bits(x);
    reveal_with_fuel(parse_n, 2);
    assert(parse_n(b, i + 1) is None);
    lemma_parse_n_stops(b, i, n);
}

} // verus!
