//! Hexadecimal text for bytes, as the signing device prints it and the host
//! tool reads it back.
use vstd::prelude::*;

verus! {

/// Upper-case hexadecimal digit of a value below 16.
pub open spec fn hex_digit(d: nat) -> u8 {
    if d < 10 {
        (48 + d) as u8
    } else {
        (55 + d) as u8
    }
}

/// Value of a hexadecimal digit (either case), if `c` is one.
pub open spec fn hex_value(c: u8) -> Option<nat> {
    if 48 <= c <= 57 {
        Some((c - 48) as nat)
    } else if 65 <= c <= 70 {
        Some((c - 55) as nat)
    } else if 97 <= c <= 102 {
        Some((c - 87) as nat)
    } else {
        None
    }
}

/// Line breaks and spaces, which hexadecimal text may hold anywhere.
pub open spec fn is_layout(c: u8) -> bool {
    c == 10 || c == 13 || c == 32
}

/// The text without its line breaks and spaces.
pub open spec fn strip_layout(s: Seq<u8>) -> Seq<u8>
    decreases s.len(),
{
    if s.len() == 0 {
        Seq::empty()
    } else if is_layout(s.last()) {
        strip_layout(s.drop_last())
    } else {
        strip_layout(s.drop_last()).push(s.last())
    }
}

/// Why hexadecimal text could not be read.
#[derive(Debug, Clone, Copy, PartialEq, Eq, Structural)]
pub enum HexError {
    /// An odd number of digits.
    OddLength,
    /// A character that is not a hexadecimal digit.
    InvalidDigit,
}

/// What reading hexadecimal text yields.
pub open spec fn hex_decode_spec(s: Seq<u8>) -> Result<Seq<u8>, HexError> {
    let t = strip_layout(s);
    if t.len() % 2 != 0 {
        Err(HexError::OddLength)
    } else if exists|k: int| 0 <= k < t.len() && (#[trigger] hex_value(t[k])) is None {
        Err(HexError::InvalidDigit)
    } else {
        Ok(
            Seq::new(
                t.len() / 2,
                |i: int| (16 * hex_value(t[2 * i])->0 + hex_value(t[2 * i + 1])->0) as u8,
            ),
        )
    }
}

/// The two upper-case hexadecimal digits of a byte, high digit first.
pub fn format_hex(byte: u8) -> (r: [u8; 2])
    ensures
        r@ == seq![hex_digit((byte / 16) as nat), hex_digit((byte % 16) as nat)],
{
    let hi = byte / 16;
    let lo = byte % 16;
    let h = if hi < 10 {
        48 + hi
    } else {
        55 + hi
    };
    let l = if lo < 10 {
        48 + lo
    } else {
        55 + lo
    };
    let r = [h, l];
    assert(r@ =~= seq![hex_digit((byte / 16) as nat), hex_digit((byte % 16) as nat)]);
    r
}

fn digit_value(c: u8) -> (r: Option<u8>)
    ensures
        match r {
            Some(v) => hex_value(c) == Some(v as nat),
            None => hex_value(c) is None,
        },
{
    if 48 <= c && c <= 57 {
        Some(c - 48)
    } else if 65 <= c && c <= 70 {
        Some(c - 55)
    } else if 97 <= c && c <= 102 {
        Some(c - 87)
    } else {
        None
    }
}

/// Reads hexadecimal text (either case, with line breaks and spaces anywhere)
/// into bytes.
pub fn hex_decode(hex: &[u8]) -> (r: Result<Vec<u8>, HexError>)
    ensures
        match r {
            Ok(v) => hex_decode_spec(hex@) == Ok::<Seq<u8>, HexError>(v@),
            Err(e) => hex_decode_spec(hex@) == Err::<Seq<u8>, HexError>(e),
        },
{
    let mut digits: Vec<u8> = Vec::new();
    let mut i: usize = 0;
    while i < hex.len()
        invariant
            i <= hex@.len(),
            digits@ == strip_layout(hex@.take(i as int)),
        decreases hex@.len() - i,
    {
        assert(hex@.take(i + 1).drop_last() =~= hex@.take(i as int));
        let c = hex[i];
        if !(c == 10 || c == 13 || c == 32) {
            digits.push(c);
        }
        i += 1;
    }
    assert(hex@.take(hex@.len() as int) =~= hex@);
    let ghost t = digits@;
    if digits.len() % 2 != 0 {
        return Err(HexError::OddLength);
    }
    let mut bytes: Vec<u8> = Vec::with_capacity(digits.len() / 2);
    let mut k: usize = 0;
    while k < digits.len() / 2
        invariant
            t == digits@,
            t == strip_layout(hex@),
            t.len() % 2 == 0,
            k <= t.len() / 2,
            forall|m: int| 0 <= m < 2 * k ==> (#[trigger] hex_value(t[m])) is Some,
            bytes@ =~= Seq::new(
                k as nat,
                |i: int| (16 * hex_value(t[2 * i])->0 + hex_value(t[2 * i + 1])->0) as u8,
            ),
        decreases t.len() / 2 - k,
    {
        let hi = digit_value(digits[2 * k]);
        let lo = digit_value(digits[2 * k + 1]);
        match (hi, lo) {
            (Some(h), Some(l)) => {
                bytes.push(16 * h + l);
                proof {
                    assert forall|m: int| 0 <= m < 2 * (k + 1) implies (#[trigger] hex_value(
                        t[m],
                    )) is Some by {
                        if m >= 2 * k {
                            assert(m == 2 * k || m == 2 * k + 1);
                        }
                    }
                }
                k += 1;
            },
            _ => {
                proof {
                    if hi is None {
                        assert(hex_value(t[2 * k as int]) is None);
                    } else {
                        assert(hex_value(t[2 * k + 1]) is None);
                    }
                }
                return Err(HexError::InvalidDigit);
            },
        }
    }
    assert(forall|m: int| 0 <= m < t.len() ==> (#[trigger] hex_value(t[m])) is Some);
    Ok(bytes)
}

} // verus!
