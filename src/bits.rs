use vstd::prelude::*;

verus! {

/// Bit `j` of a byte, counting from the most significant bit (`j == 0`).
pub open spec fn bit_of(b: u8, j: int) -> bool {
    (b & (128u8 >> (j as u8))) != 0u8
}

/// The bits of a byte string, each byte most significant bit first.
pub open spec fn bytes_bits(s: Seq<u8>) -> Seq<bool> {
    Seq::new((8 * s.len()) as nat, |i: int| bit_of(s[i / 8], i % 8))
}

/// A run of `n` zero bits.
pub open spec fn zero_bits(n: nat) -> Seq<bool> {
    Seq::new(n, |i: int| false)
}

/// The bits of a byte, most significant first.
pub open spec fn byte_bits(b: u8) -> Seq<bool> {
    Seq::new(8, |j: int| bit_of(b, j))
}

/// The unsigned value of the `len` bits of `b` that start at `pos`, most
/// significant first.
pub open spec fn bits_value(b: Seq<bool>, pos: int, len: nat) -> nat
    decreases len,
{
    if len == 0 {
        0
    } else {
        2 * bits_value(b, pos, (len - 1) as nat) + if b[pos + len - 1] {
            1nat
        } else {
            0nat
        }
    }
}

pub proof fn lemma_bits_value_bound(b: Seq<bool>, pos: int, len: nat)
    ensures
        bits_value(b, pos, len) < vstd::arithmetic::power2::pow2(len),
    decreases len,
{
    if len > 0 {
        lemma_bits_value_bound(b, pos, (len - 1) as nat);
        vstd::arithmetic::power2::lemma_pow2_unfold(len);
    } else {
        vstd::arithmetic::power2::lemma2_to64();
    }
}

/// Two bit strings that agree on a range have the same value there.
pub proof fn lemma_bits_value_agree(a: Seq<bool>, pa: int, b: Seq<bool>, pb: int, len: nat)
    requires
        forall|k: int| 0 <= k < len ==> #[trigger] a[pa + k] == b[pb + k],
    ensures
        bits_value(a, pa, len) == bits_value(b, pb, len),
    decreases len,
{
    if len > 0 {
        lemma_bits_value_agree(a, pa, b, pb, (len - 1) as nat);
        assert(a[pa + (len - 1)] == b[pb + (len - 1)]);
    }
}

/// The seven low bits of a byte, read in order, give its value modulo 128.
pub proof fn lemma_low_bits_value(x: u8)
    ensures
        bits_value(byte_bits(x), 1, 7) == x % 128,
{
    let s = byte_bits(x);
    reveal_with_fuel(bits_value, 8);
    let b1 = (x & 64u8) != 0u8;
    let b2 = (x & 32u8) != 0u8;
    let b3 = (x & 16u8) != 0u8;
    let b4 = (x & 8u8) != 0u8;
    let b5 = (x & 4u8) != 0u8;
    let b6 = (x & 2u8) != 0u8;
    let b7 = (x & 1u8) != 0u8;
    assert(s[1] == b1 && s[2] == b2 && s[3] == b3 && s[4] == b4 && s[5] == b5 && s[6] == b6
        && s[7] == b7) by {
        assert(128u8 >> 1u8 == 64u8) by (bit_vector);
        assert(128u8 >> 2u8 == 32u8) by (bit_vector);
        assert(128u8 >> 3u8 == 16u8) by (bit_vector);
        assert(128u8 >> 4u8 == 8u8) by (bit_vector);
        assert(128u8 >> 5u8 == 4u8) by (bit_vector);
        assert(128u8 >> 6u8 == 2u8) by (bit_vector);
        assert(128u8 >> 7u8 == 1u8) by (bit_vector);
    }
    assert(x % 128 == (x & 64u8) + (x & 32u8) + (x & 16u8) + (x & 8u8) + (x & 4u8) + (x & 2u8)
        + (x & 1u8)) by (bit_vector);
    assert((x & 64u8) == 0u8 || (x & 64u8) == 64u8) by (bit_vector);
    assert((x & 32u8) == 0u8 || (x & 32u8) == 32u8) by (bit_vector);
    assert((x & 16u8) == 0u8 || (x & 16u8) == 16u8) by (bit_vector);
    assert((x & 8u8) == 0u8 || (x & 8u8) == 8u8) by (bit_vector);
    assert((x & 4u8) == 0u8 || (x & 4u8) == 4u8) by (bit_vector);
    assert((x & 2u8) == 0u8 || (x & 2u8) == 2u8) by (bit_vector);
    assert((x & 1u8) == 0u8 || (x & 1u8) == 1u8) by (bit_vector);
}

/// Setting one bit of a byte string changes that bit of its bit view only.
pub proof fn lemma_set_bit(s: Seq<u8>, p: int)
    requires
        0 <= p < 8 * s.len(),
    ensures
        bytes_bits(s.update(p / 8, s[p / 8] | (128u8 >> ((p % 8) as u8)))) == bytes_bits(
            s,
        ).update(p, true),
{
    let t = s.update(p / 8, s[p / 8] | (128u8 >> ((p % 8) as u8)));
    assert forall|k: int| 0 <= k < 8 * s.len() implies #[trigger] bytes_bits(t)[k] == bytes_bits(
        s,
    ).update(p, true)[k] by {
        if k / 8 == p / 8 {
            let x = s[p / 8];
            let m = (p % 8) as u8;
            let kk = (k % 8) as u8;
            assert(((x | (128u8 >> m)) & (128u8 >> kk)) != 0u8 <==> ((x & (128u8 >> kk)) != 0u8
                || kk == m)) by (bit_vector)
                requires
                    m < 8u8,
                    kk < 8u8,
            ;
        }
    }
    assert(bytes_bits(t) =~= bytes_bits(s).update(p, true));
}

/// Bit `t` of the `w`-bit value `u`, counting from the most significant.
pub open spec fn value_bit(u: u32, w: nat, t: int) -> bool {
    ((u >> ((w - 1 - t) as u32)) & 1u32) == 1u32
}

proof fn lemma_value_bits_prefix(b: Seq<bool>, off: int, u: u32, w: nat, len: nat)
    requires
        1 <= w <= 16,
        len <= w,
        u < (1u32 << (w as u32)),
        forall|t: int| 0 <= t < w ==> #[trigger] b[off + t] == value_bit(u, w, t),
    ensures
        bits_value(b, off, len) == (u >> ((w - len) as u32)) as nat,
    decreases len,
{
    let ww = w as u32;
    if len == 0 {
        assert(u >> ww == 0u32) by (bit_vector)
            requires
                1u32 <= ww <= 16u32,
                u < (1u32 << ww),
        ;
    } else {
        lemma_value_bits_prefix(b, off, u, w, (len - 1) as nat);
        let s = (w - len) as u32;
        assert(b[off + (len - 1)] == value_bit(u, w, len - 1));
        assert((u >> s) == 2 * (u >> (s + 1)) + ((u >> s) & 1u32) && (((u >> s) & 1u32) == 0u32
            || ((u >> s) & 1u32) == 1u32)) by (bit_vector)
            requires
                s < 16u32,
        ;
    }
}

/// The `w` bits at `off` spell out `u`, so they read back as `u`.
pub proof fn lemma_value_bits(b: Seq<bool>, off: int, u: u32, w: nat)
    requires
        1 <= w <= 16,
        u < (1u32 << (w as u32)),
        forall|t: int| 0 <= t < w ==> #[trigger] b[off + t] == value_bit(u, w, t),
    ensures
        bits_value(b, off, w) == u,
{
    lemma_value_bits_prefix(b, off, u, w, w);
    assert(u >> 0u32 == u) by (bit_vector);
}

/// Reads `w` bits of `data` from bit `off`, most significant first.
pub fn read_bits(data: &[u8], off: usize, w: usize) -> (r: u32)
    requires
        off + w <= 8 * data@.len(),
        8 * data@.len() <= usize::MAX,
        w <= 16,
    ensures
        r as nat == bits_value(bytes_bits(data@), off as int, w as nat),
{
    let ghost b = bytes_bits(data@);
    proof {
        vstd::arithmetic::power2::lemma2_to64();
    }
    let mut acc: u32 = 0;
    let mut t: usize = 0;
    while t < w
        invariant
            t <= w,
            w <= 16,
            off + w <= 8 * data@.len(),
            8 * data@.len() <= usize::MAX,
            b == bytes_bits(data@),
            acc as nat == bits_value(b, off as int, t as nat),
            acc < vstd::arithmetic::power2::pow2(t as nat),
        decreases w - t,
    {
        proof {
            vstd::arithmetic::power2::lemma_pow2_unfold((t + 1) as nat);
            vstd::arithmetic::power2::lemma2_to64();
            if t < 15 {
                vstd::arithmetic::power2::lemma_pow2_strictly_increases(t as nat, 15);
            }
        }
        let p = off + t;
        let bit = data[p / 8] & (128u8 >> ((p % 8) as u8)) != 0;
        assert(b[p as int] == bit);
        acc = 2 * acc + if bit {
            1
        } else {
            0
        };
        t += 1;
    }
    acc
}

/// Reads `count` fields of `w` bits each, the first at bit `off`.
pub fn read_fields(data: &[u8], off: usize, w: usize, count: usize) -> (r: Vec<u32>)
    requires
        off + w * count <= 8 * data@.len(),
        8 * data@.len() <= usize::MAX,
        1 <= w <= 16,
    ensures
        r@.len() == count,
        forall|i: int|
            0 <= i < count ==> #[trigger] r@[i] as nat == bits_value(
                bytes_bits(data@),
                off + w * i,
                w as nat,
            ),
{
    let mut r: Vec<u32> = Vec::with_capacity(count);
    let mut i: usize = 0;
    let mut pos: usize = off;
    while i < count
        invariant
            i <= count,
            1 <= w <= 16,
            off + w * count <= 8 * data@.len(),
            8 * data@.len() <= usize::MAX,
            pos == off + w * i,
            r@.len() == i,
            forall|j: int|
                0 <= j < i ==> #[trigger] r@[j] as nat == bits_value(
                    bytes_bits(data@),
                    off + w * j,
                    w as nat,
                ),
        decreases count - i,
    {
        assert(pos + w <= off + w * count) by (nonlinear_arith)
            requires
                pos == off + w * i,
                i < count,
        ;
        let v = read_bits(data, pos, w);
        r.push(v);
        assert(pos + w == off + w * (i + 1)) by (nonlinear_arith)
            requires
                pos == off + w * i,
        ;
        pos = pos + w;
        i += 1;
    }
    r
}

/// Writes `u` as `w` bits at bit `off`, where all bits were zero.
fn write_bits(data: &mut Vec<u8>, off: usize, w: usize, u: u32)
    requires
        off + w <= 8 * old(data)@.len(),
        8 * old(data)@.len() <= usize::MAX,
        1 <= w <= 16,
    ensures
        final(data)@.len() == old(data)@.len(),
        forall|k: int|
            0 <= k < 8 * old(data)@.len() ==> #[trigger] bytes_bits(final(data)@)[k] == if off <= k
                < off + w {
                bytes_bits(old(data)@)[k] || value_bit(u, w as nat, k - off)
            } else {
                bytes_bits(old(data)@)[k]
            },
{
    let ghost b0 = bytes_bits(data@);
    let mut t: usize = 0;
    while t < w
        invariant
            t <= w,
            1 <= w <= 16,
            off + w <= 8 * data@.len(),
            8 * data@.len() <= usize::MAX,
            data@.len() == old(data)@.len(),
            b0 == bytes_bits(old(data)@),
            forall|k: int|
                0 <= k < 8 * data@.len() ==> #[trigger] bytes_bits(data@)[k] == if off <= k < off
                    + t {
                    b0[k] || value_bit(u, w as nat, k - off)
                } else {
                    b0[k]
                },
        decreases w - t,
    {
        let s = (w - 1 - t) as u32;
        if (u >> s) & 1 == 1 {
            crate::encoding::set_bit(data, off + t);
        }
        t += 1;
    }
}

/// Writes each of `vals` as `w` bits, the first at bit `off`, into bytes
/// whose bits from `off` on are all zero.
pub fn write_fields(data: &mut Vec<u8>, off: usize, w: usize, vals: &[u32])
    requires
        off + w * vals@.len() <= 8 * old(data)@.len(),
        8 * old(data)@.len() <= usize::MAX,
        1 <= w <= 16,
        forall|i: int| 0 <= i < vals@.len() ==> #[trigger] vals@[i] < (1u32 << (w as u32)),
        forall|k: int| off <= k < 8 * old(data)@.len() ==> !#[trigger] bytes_bits(old(data)@)[k],
    ensures
        final(data)@.len() == old(data)@.len(),
        forall|k: int| 0 <= k < off ==> #[trigger] bytes_bits(final(data)@)[k] == bytes_bits(
            old(data)@,
        )[k],
        forall|k: int|
            off + w * vals@.len() <= k < 8 * old(data)@.len() ==> !#[trigger] bytes_bits(
                final(data)@,
            )[k],
        forall|i: int|
            0 <= i < vals@.len() ==> #[trigger] bits_value(
                bytes_bits(final(data)@),
                off + w * i,
                w as nat,
            ) == vals@[i],
{
    let ghost b0 = bytes_bits(data@);
    let mut i: usize = 0;
    let mut pos: usize = off;
    while i < vals.len()
        invariant
            i <= vals@.len(),
            1 <= w <= 16,
            off + w * vals@.len() <= 8 * old(data)@.len(),
            8 * old(data)@.len() <= usize::MAX,
            forall|i: int| 0 <= i < vals@.len() ==> #[trigger] vals@[i] < (1u32 << (w as u32)),
            pos == off + w * i,
            data@.len() == old(data)@.len(),
            b0 == bytes_bits(old(data)@),
            forall|k: int| 0 <= k < off ==> #[trigger] bytes_bits(data@)[k] == b0[k],
            forall|k: int| pos <= k < 8 * old(data)@.len() ==> !#[trigger] bytes_bits(data@)[k],
            forall|j: int|
                0 <= j < i ==> #[trigger] bits_value(bytes_bits(data@), off + w * j, w as nat)
                    == vals@[j],
        decreases vals@.len() - i,
    {
        assert(pos + w <= off + w * vals@.len()) by (nonlinear_arith)
            requires
                pos == off + w * i,
                i < vals@.len(),
        ;
        let ghost before = bytes_bits(data@);
        write_bits(data, pos, w, vals[i]);
        proof {
            let after = bytes_bits(data@);
            assert forall|j: int| 0 <= j < i + 1 implies #[trigger] bits_value(
                after,
                off + w * j,
                w as nat,
            ) == vals@[j] by {
                if j < i {
                    assert(off + w * j + w <= pos) by (nonlinear_arith)
                        requires
                            pos == off + w * i,
                            j < i,
                    ;
                    assert(0 <= off + w * j) by (nonlinear_arith)
                        requires
                            0 <= j,
                    ;
                    assert forall|t: int| 0 <= t < w implies #[trigger] after[off + w * j + t]
                        == before[off + w * j + t] by {}
                    lemma_bits_value_agree(after, off + w * j, before, off + w * j, w as nat);
                } else {
                    assert(j == i);
                    assert forall|t: int| 0 <= t < w implies #[trigger] after[pos + t] == value_bit(
                        vals@[i as int],
                        w as nat,
                        t,
                    ) by {
                        assert(!before[pos + t]);
                    }
                    lemma_value_bits(after, pos as int, vals@[i as int], w as nat);
                }
            }
        }
        assert(pos + w == off + w * (i + 1)) by (nonlinear_arith)
            requires
                pos == off + w * i,
        ;
        pos = pos + w;
        i += 1;
    }
}

} // verus!
