//! Polynomials in `Z[x] / (x^n + 1)` and their reduction modulo `q`.
use vstd::prelude::*;
use vstd::arithmetic::div_mod::{lemma_fundamental_div_mod, lemma_mod_multiples_vanish};

verus! {

/// The signing modulus.
pub const Q: u32 = 12289;

/// `Q * Q`.
pub const Q_SQUARED: u64 = 151019521;

/// A sequence of machine integers as mathematical integers.
pub open spec fn ints_u16(s: Seq<u16>) -> Seq<int> {
    s.map_values(|x: u16| x as int)
}

/// A sequence of machine integers as mathematical integers.
pub open spec fn ints_i16(s: Seq<i16>) -> Seq<int> {
    s.map_values(|x: i16| x as int)
}

/// The part that `a[i]` contributes to coefficient `k` of `a * b` modulo
/// `x^n + 1`, where `n` is the length of `a`: `x^n` wraps round to `-1`.
pub open spec fn nega_term(a: Seq<int>, b: Seq<int>, k: int, i: int) -> int {
    if i <= k {
        a[i] * b[k - i]
    } else {
        -(a[i] * b[a.len() + k - i])
    }
}

/// The first `m` parts of coefficient `k` of `a * b` modulo `x^n + 1`.
pub open spec fn nega_sum(a: Seq<int>, b: Seq<int>, k: int, m: nat) -> int
    decreases m,
{
    if m == 0 {
        0
    } else {
        nega_sum(a, b, k, (m - 1) as nat) + nega_term(a, b, k, m - 1)
    }
}

/// The product `a * b` in `Z[x] / (x^n + 1)`, for `a` and `b` of length `n`.
pub open spec fn poly_mul(a: Seq<int>, b: Seq<int>) -> Seq<int> {
    Seq::new(a.len(), |k: int| nega_sum(a, b, k, a.len()))
}

/// Every coefficient lies in `[0, q)`.
pub open spec fn reduced(a: Seq<u16>) -> bool {
    forall|i: int| 0 <= i < a.len() ==> #[trigger] a[i] < Q
}

/// The product `a * b` in `Z_q[x] / (x^n + 1)`, coefficients in `[0, q)`.
pub fn mul_mod_q(a: &[u16], b: &[u16]) -> (r: Vec<u16>)
    requires
        a@.len() == b@.len(),
        a@.len() <= 1024,
        reduced(a@),
        reduced(b@),
    ensures
        r@.len() == a@.len(),
        reduced(r@),
        forall|k: int|
            0 <= k < a@.len() ==> #[trigger] r@[k] as int == poly_mul(ints_u16(a@), ints_u16(b@))[k]
                % (Q as int),
{
    let n = a.len();
    let ghost ia = ints_u16(a@);
    let ghost ib = ints_u16(b@);
    let mut r: Vec<u16> = Vec::with_capacity(n);
    let mut k: usize = 0;
    while k < n
        invariant
            n == a@.len(),
            n == b@.len(),
            n <= 1024,
            k <= n,
            reduced(a@),
            reduced(b@),
            ia == ints_u16(a@),
            ib == ints_u16(b@),
            r@.len() == k,
            reduced(r@),
            forall|t: int| 0 <= t < k ==> #[trigger] r@[t] as int == poly_mul(ia, ib)[t] % (Q as int),
        decreases n - k,
    {
        let mut pos: u64 = 0;
        let mut neg: u64 = 0;
        let mut i: usize = 0;
        while i < n
            invariant
                n == a@.len(),
                n == b@.len(),
                n <= 1024,
                k < n,
                i <= n,
                reduced(a@),
                reduced(b@),
                ia == ints_u16(a@),
                ib == ints_u16(b@),
                pos <= i * Q_SQUARED,
                neg <= i * Q_SQUARED,
                pos - neg == nega_sum(ia, ib, k as int, i as nat),
            decreases n - i,
        {
            if i <= k {
                let x = a[i] as u64;
                let y = b[k - i] as u64;
                assert(x * y <= Q_SQUARED) by (nonlinear_arith)
                    requires
                        x < Q,
                        y < Q,
                ;
                pos = pos + x * y;
            } else {
                let x = a[i] as u64;
                let y = b[n + k - i] as u64;
                assert(x * y <= Q_SQUARED) by (nonlinear_arith)
                    requires
                        x < Q,
                        y < Q,
                ;
                neg = neg + x * y;
            }
            i += 1;
        }
        let p = pos % (Q as u64);
        let m = neg % (Q as u64);
        let c = ((p + Q as u64 - m) % (Q as u64)) as u16;
        proof {
            let qi = Q as int;
            lemma_fundamental_div_mod(pos as int, qi);
            lemma_fundamental_div_mod(neg as int, qi);
            let a1 = pos as int / qi;
            let a2 = neg as int / qi;
            assert(pos as int - neg as int == qi * (a1 - a2 - 1) + (p + qi - m)) by (nonlinear_arith)
                requires
                    pos as int == qi * a1 + p,
                    neg as int == qi * a2 + m,
            ;
            lemma_mod_multiples_vanish(a1 - a2 - 1, (p + qi - m) as int, qi);
        }
        r.push(c);
        k += 1;
    }
    r
}

/// The product `a * b` in `Z[x] / (x^n + 1)`, computed exactly.
pub fn mul_exact(a: &[i16], b: &[i16]) -> (r: Vec<i64>)
    requires
        a@.len() == b@.len(),
        a@.len() <= 1024,
    ensures
        r@.len() == a@.len(),
        forall|k: int|
            0 <= k < a@.len() ==> #[trigger] r@[k] as int == poly_mul(ints_i16(a@), ints_i16(b@))[k],
        forall|k: int| 0 <= k < a@.len() ==> -0x400_0000_0000 <= #[trigger] r@[k] <= 0x400_0000_0000,
{
    let n = a.len();
    let ghost ia = ints_i16(a@);
    let ghost ib = ints_i16(b@);
    let mut r: Vec<i64> = Vec::with_capacity(n);
    let mut k: usize = 0;
    while k < n
        invariant
            n == a@.len(),
            n == b@.len(),
            n <= 1024,
            k <= n,
            ia == ints_i16(a@),
            ib == ints_i16(b@),
            r@.len() == k,
            forall|t: int| 0 <= t < k ==> #[trigger] r@[t] as int == poly_mul(ia, ib)[t],
            forall|t: int| 0 <= t < k ==> -0x400_0000_0000 <= #[trigger] r@[t] <= 0x400_0000_0000,
        decreases n - k,
    {
        let mut acc: i64 = 0;
        let mut i: usize = 0;
        while i < n
            invariant
                n == a@.len(),
                n == b@.len(),
                n <= 1024,
                k < n,
                i <= n,
                ia == ints_i16(a@),
                ib == ints_i16(b@),
                -(i * 0x4000_0000) <= acc <= i * 0x4000_0000,
                acc == nega_sum(ia, ib, k as int, i as nat),
            decreases n - i,
        {
            let x = a[i] as i64;
            let y = if i <= k {
                b[k - i] as i64
            } else {
                b[n + k - i] as i64
            };
            assert(-0x4000_0000 <= x * y <= 0x4000_0000) by (nonlinear_arith)
                requires
                    -0x8000 <= x <= 0x7fff,
                    -0x8000 <= y <= 0x7fff,
            ;
            if i <= k {
                acc = acc + x * y;
            } else {
                acc = acc - x * y;
            }
            i += 1;
        }
        r.push(acc);
        k += 1;
    }
    r
}

/// The product `a * b` in `Z_q[x] / (x^n + 1)`, coefficients in `[0, q)`.
pub open spec fn mul_q(a: Seq<u16>, b: Seq<u16>) -> Seq<u16> {
    let p = poly_mul(ints_u16(a), ints_u16(b));
    Seq::new(a.len(), |k: int| (p[k] % (Q as int)) as u16)
}

/// The polynomial 1 of `n` coefficients.
pub open spec fn one_q(n: nat) -> Seq<u16> {
    Seq::new(n, |k: int| if k == 0 { 1u16 } else { 0u16 })
}

/// `a` to the power `e` in `Z_q[x] / (x^n + 1)`, by squaring and multiplying.
pub open spec fn pow_q(a: Seq<u16>, e: nat) -> Seq<u16>
    decreases e,
{
    if e == 0 {
        one_q(a.len())
    } else {
        let half = pow_q(a, e / 2);
        let sq = mul_q(half, half);
        if e % 2 == 1 {
            mul_q(sq, a)
        } else {
            sq
        }
    }
}

pub proof fn lemma_mul_q_view(a: Seq<u16>, b: Seq<u16>, r: Seq<u16>)
    requires
        r.len() == a.len(),
        forall|k: int|
            0 <= k < a.len() ==> #[trigger] r[k] as int == poly_mul(ints_u16(a), ints_u16(b))[k]
                % (Q as int),
    ensures
        r == mul_q(a, b),
{
    assert(r =~= mul_q(a, b));
}

/// `a` to the power `e` in `Z_q[x] / (x^n + 1)`.
pub fn pow_mod_q(a: &[u16], e: u32) -> (r: Vec<u16>)
    requires
        1 <= a@.len() <= 1024,
        reduced(a@),
    ensures
        r@ == pow_q(a@, e as nat),
        r@.len() == a@.len(),
        reduced(r@),
    decreases e,
{
    if e == 0 {
        let mut r: Vec<u16> = Vec::with_capacity(a.len());
        r.push(1);
        while r.len() < a.len()
            invariant
                1 <= r@.len() <= a@.len(),
                r@ == one_q(r@.len() as nat),
                reduced(r@),
            decreases a@.len() - r@.len(),
        {
            r.push(0);
            assert(r@ =~= one_q(r@.len() as nat));
        }
        return r;
    }
    let half = pow_mod_q(a, e / 2);
    let sq = mul_mod_q(&half, &half);
    proof {
        lemma_mul_q_view(half@, half@, sq@);
    }
    if e % 2 == 1 {
        let r = mul_mod_q(&sq, a);
        proof {
            lemma_mul_q_view(sq@, a@, r@);
        }
        r
    } else {
        sq
    }
}

} // verus!
