//! The line protocol between the signing device and its host: the device
//! collects a message up to a line end, and answers with the message, the
//! signature and the public key, the last two in hexadecimal.
use vstd::prelude::*;
use crate::hex::{format_hex, hex_digit};

verus! {

/// Longest message the device accepts.
pub const MAX_MESSAGE_SIZE: usize = 512;

/// A byte that ends a message line.
pub open spec fn is_line_end(c: u8) -> bool {
    c == 10 || c == 13
}

/// A byte dropped from the end of a message.
pub open spec fn is_trailing_space(c: u8) -> bool {
    c == 10 || c == 13 || c == 32 || c == 9
}

/// The message without its trailing line ends, spaces and tabs.
pub open spec fn trim_end(s: Seq<u8>) -> Seq<u8>
    decreases s.len(),
{
    if s.len() > 0 && is_trailing_space(s.last()) {
        trim_end(s.drop_last())
    } else {
        s
    }
}

/// Collects the bytes of a message as they arrive.
pub struct UsbMessageHandler {
    pub message_buffer: Vec<u8>,
}

/// What the buffer holds after `chunk` arrives on top of `old`, and whether a
/// complete message is then ready: a chunk that would overflow the buffer
/// empties it; a chunk with a line end completes the message, trimmed at its
/// end, unless nothing is left of it.
pub open spec fn after_chunk(old: Seq<u8>, chunk: Seq<u8>) -> (Seq<u8>, bool) {
    let joined = old + chunk;
    if joined.len() > MAX_MESSAGE_SIZE {
        (Seq::empty(), false)
    } else if exists|i: int| 0 <= i < chunk.len() && is_line_end(#[trigger] chunk[i]) {
        let t = trim_end(joined);
        if t.len() > 0 {
            (t, true)
        } else {
            (Seq::empty(), false)
        }
    } else {
        (joined, false)
    }
}

/// Whether `v` ends with a line end, a space or a tab.
fn ends_with_space(v: &Vec<u8>) -> (r: bool)
    ensures
        r == (v@.len() > 0 && is_trailing_space(v@.last())),
{
    if v.len() == 0 {
        return false;
    }
    let last = v[v.len() - 1];
    last == 10 || last == 13 || last == 32 || last == 9
}

impl UsbMessageHandler {
    pub open spec fn wf(&self) -> bool {
        self.message_buffer@.len() <= MAX_MESSAGE_SIZE
    }

    /// An empty handler.
    pub fn new() -> (r: Self)
        ensures
            r.message_buffer@ == Seq::<u8>::empty(),
            r.wf(),
    {
        UsbMessageHandler { message_buffer: Vec::new() }
    }

    /// Takes the bytes of one read; returns whether a complete message is
    /// ready in the buffer.
    pub fn try_read_message(&mut self, chunk: &[u8]) -> (r: bool)
        requires
            old(self).wf(),
        ensures
            final(self).wf(),
            (final(self).message_buffer@, r) == after_chunk(old(self).message_buffer@, chunk@),
    {
        if chunk.len() > MAX_MESSAGE_SIZE - self.message_buffer.len() {
            self.message_buffer = Vec::new();
            return false;
        }
        let ghost before = self.message_buffer@;
        let mut line_end = false;
        let mut i: usize = 0;
        while i < chunk.len()
            invariant
                i <= chunk@.len(),
                before.len() + chunk@.len() <= MAX_MESSAGE_SIZE,
                self.message_buffer@ == before + chunk@.take(i as int),
                line_end <==> exists|k: int| 0 <= k < i && is_line_end(#[trigger] chunk@[k]),
            decreases chunk@.len() - i,
        {
            let c = chunk[i];
            self.message_buffer.push(c);
            if c == 10 || c == 13 {
                line_end = true;
            }
            proof {
                if is_line_end(c) {
                    assert(is_line_end(chunk@[i as int]));
                }
            }
            i += 1;
            assert(self.message_buffer@ =~= before + chunk@.take(i as int));
        }
        assert(chunk@.take(chunk@.len() as int) =~= chunk@);
        if !line_end {
            return false;
        }
        let ghost joined = self.message_buffer@;
        while ends_with_space(&self.message_buffer)
            invariant
                trim_end(self.message_buffer@) == trim_end(joined),
                self.message_buffer@.len() <= MAX_MESSAGE_SIZE,
            decreases self.message_buffer@.len(),
        {
            let ghost prev = self.message_buffer@;
            self.message_buffer.pop();
            assert(self.message_buffer@ =~= prev.drop_last());
        }
        if self.message_buffer.len() == 0 {
            return false;
        }
        true
    }

    /// Empties the buffer.
    pub fn clear_buffer(&mut self)
        ensures
            final(self).message_buffer@ == Seq::<u8>::empty(),
            final(self).wf(),
    {
        self.message_buffer = Vec::new();
    }

    /// The bytes collected so far.
    pub fn get_message(&self) -> (r: &[u8])
        ensures
            r@ == self.message_buffer@,
    {
        self.message_buffer.as_slice()
    }
}

/// Upper-case hexadecimal text of `s`, two digits per byte.
pub open spec fn hex_text(s: Seq<u8>) -> Seq<u8>
    decreases s.len(),
{
    if s.len() == 0 {
        Seq::empty()
    } else {
        hex_text(s.drop_last()) + seq![
            hex_digit((s.last() / 16) as nat),
            hex_digit((s.last() % 16) as nat),
        ]
    }
}

/// `SIGNED:` and a line end.
pub open spec fn signed_tag() -> Seq<u8> {
    seq![83u8, 73u8, 71u8, 78u8, 69u8, 68u8, 58u8, 10u8]
}

/// A line end, `SIGNATURE:` and a line end.
pub open spec fn signature_tag() -> Seq<u8> {
    seq![10u8, 83u8, 73u8, 71u8, 78u8, 65u8, 84u8, 85u8, 82u8, 69u8, 58u8, 10u8]
}

/// A line end, `PUBLIC_KEY:` and a line end.
pub open spec fn public_key_tag() -> Seq<u8> {
    seq![10u8, 80u8, 85u8, 66u8, 76u8, 73u8, 67u8, 95u8, 75u8, 69u8, 89u8, 58u8, 10u8]
}

/// The device's answer to a signed message.
pub open spec fn signed_response(message: Seq<u8>, signature: Seq<u8>, public_key: Seq<u8>) -> Seq<
    u8,
> {
    signed_tag() + message + signature_tag() + hex_text(signature) + public_key_tag() + hex_text(
        public_key,
    ) + seq![10u8]
}

fn push_all(out: &mut Vec<u8>, s: &[u8])
    ensures
        final(out)@ == old(out)@ + s@,
{
    let ghost start = out@;
    let mut i: usize = 0;
    while i < s.len()
        invariant
            i <= s@.len(),
            out@ == start + s@.take(i as int),
        decreases s@.len() - i,
    {
        out.push(s[i]);
        i += 1;
        assert(out@ =~= start + s@.take(i as int));
    }
    assert(s@.take(s@.len() as int) =~= s@);
}

fn push_hex(out: &mut Vec<u8>, s: &[u8])
    ensures
        final(out)@ == old(out)@ + hex_text(s@),
{
    let ghost start = out@;
    let mut i: usize = 0;
    while i < s.len()
        invariant
            i <= s@.len(),
            out@ == start + hex_text(s@.take(i as int)),
        decreases s@.len() - i,
    {
        let h = format_hex(s[i]);
        out.push(h[0]);
        out.push(h[1]);
        assert(s@.take(i + 1).drop_last() =~= s@.take(i as int));
        i += 1;
        assert(out@ =~= start + hex_text(s@.take(i as int)));
    }
    assert(s@.take(s@.len() as int) =~= s@);
}

/// The device's answer to a signed message: the message, then the signature
/// and the public key in hexadecimal, each after its tag line.
pub fn format_signed_response(message: &[u8], signature: &[u8], public_key: &[u8]) -> (r: Vec<u8>)
    ensures
        r@ == signed_response(message@, signature@, public_key@),
{
    let signed: [u8; 8] = [83, 73, 71, 78, 69, 68, 58, 10];
    let sig_tag: [u8; 12] = [10, 83, 73, 71, 78, 65, 84, 85, 82, 69, 58, 10];
    let pk_tag: [u8; 13] = [10, 80, 85, 66, 76, 73, 67, 95, 75, 69, 89, 58, 10];
    assert(signed@ =~= signed_tag());
    assert(sig_tag@ =~= signature_tag());
    assert(pk_tag@ =~= public_key_tag());
    let mut out: Vec<u8> = Vec::new();
    push_all(&mut out, signed.as_slice());
    push_all(&mut out, message);
    push_all(&mut out, sig_tag.as_slice());
    push_hex(&mut out, signature);
    push_all(&mut out, pk_tag.as_slice());
    push_hex(&mut out, public_key);
    out.push(10);
    out
}

/// `SIGNATURE:`.
pub open spec fn signature_label() -> Seq<u8> {
    signature_tag().subrange(1, 11)
}

/// `PUBLIC_KEY:`.
pub open spec fn public_key_label() -> Seq<u8> {
    public_key_tag().subrange(1, 12)
}

/// `tag` stands in `s` at `i`.
pub open spec fn matches_at(s: Seq<u8>, i: int, tag: Seq<u8>) -> bool {
    0 <= i && i + tag.len() <= s.len() && s.subrange(i, i + tag.len()) == tag
}

/// `i` is the first place where `tag` stands in `s`.
pub open spec fn first_match(s: Seq<u8>, tag: Seq<u8>, i: int) -> bool {
    matches_at(s, i, tag) && forall|j: int| 0 <= j < i ==> !#[trigger] matches_at(s, j, tag)
}

/// ASCII white space.
pub open spec fn is_space(c: u8) -> bool {
    c == 32 || (9 <= c <= 13)
}

/// `s` without white space at either end.
pub open spec fn trim(s: Seq<u8>) -> Seq<u8>
    decreases s.len(),
{
    if s.len() > 0 && is_space(s[0]) {
        trim(s.drop_first())
    } else if s.len() > 0 && is_space(s.last()) {
        trim(s.drop_last())
    } else {
        s
    }
}

/// Why the device's answer could not be read.
#[derive(Debug, Clone, Copy, PartialEq, Eq, Structural)]
pub enum ResponseError {
    /// No `SIGNATURE:` label.
    MissingSignature,
    /// No `PUBLIC_KEY:` label.
    MissingPublicKey,
    /// The public key label comes before the end of the signature label.
    OutOfOrder,
}

/// The position of the first `tag` in `s`.
fn find_tag(s: &[u8], tag: &[u8]) -> (r: Option<usize>)
    requires
        tag@.len() > 0,
    ensures
        match r {
            Some(i) => first_match(s@, tag@, i as int),
            None => forall|j: int| !#[trigger] matches_at(s@, j, tag@),
        },
{
    let slen = s.len();
    let tlen = tag.len();
    if tlen > slen {
        return None;
    }
    let last = slen - tlen;
    let mut i: usize = 0;
    while i <= last
        invariant
            slen == s@.len(),
            tlen == tag@.len(),
            tlen > 0,
            last == slen - tlen,
            forall|j: int| 0 <= j < i ==> !#[trigger] matches_at(s@, j, tag@),
        decreases last + 1 - i,
    {
        let mut k: usize = 0;
        let mut same = true;
        while k < tlen
            invariant
                slen == s@.len(),
                tlen == tag@.len(),
                i <= last,
                last == slen - tlen,
                k <= tlen,
                same <==> (forall|t: int| 0 <= t < k ==> #[trigger] s@[i + t] == tag@[t]),
            decreases tlen - k,
        {
            if s[i + k] != tag[k] {
                same = false;
            }
            k += 1;
        }
        if same {
            assert forall|t: int| 0 <= t < tlen implies #[trigger] s@.subrange(i as int, i + tlen)[t]
                == tag@[t] by {
                assert(s@[i + t] == tag@[t]);
            }
            assert(s@.subrange(i as int, i + tlen) =~= tag@);
            return Some(i);
        }
        proof {
            let t = choose|t: int| 0 <= t < tlen && s@[i + t] != tag@[t];
            if matches_at(s@, i as int, tag@) {
                assert(s@.subrange(i as int, i + tlen)[t] == s@[i + t]);
            }
        }
        i += 1;
    }
    proof {
        assert forall|j: int| !#[trigger] matches_at(s@, j, tag@) by {
            if j > last {
                assert(!(j + tag@.len() <= s@.len()));
            }
        }
    }
    None
}

/// `s[from..to]` without white space at either end.
fn trimmed(s: &[u8], from: usize, to: usize) -> (r: Vec<u8>)
    requires
        from <= to <= s@.len(),
    ensures
        r@ == trim(s@.subrange(from as int, to as int)),
{
    let mut a = from;
    let mut b = to;
    while a < b && (s[a] == 32 || (9 <= s[a] && s[a] <= 13))
        invariant
            from <= a <= b <= to <= s@.len(),
            trim(s@.subrange(a as int, b as int)) == trim(s@.subrange(from as int, to as int)),
        decreases b - a,
    {
        assert(s@.subrange(a as int, b as int).drop_first() =~= s@.subrange(a + 1, b as int));
        a += 1;
    }
    while a < b && (s[b - 1] == 32 || (9 <= s[b - 1] && s[b - 1] <= 13))
        invariant
            from <= a <= b <= to <= s@.len(),
            a < b ==> !is_space(s@[a as int]),
            trim(s@.subrange(a as int, b as int)) == trim(s@.subrange(from as int, to as int)),
        decreases b - a,
    {
        assert(s@.subrange(a as int, b as int).drop_last() =~= s@.subrange(a as int, b - 1));
        b -= 1;
    }
    let mut r: Vec<u8> = Vec::with_capacity(b - a);
    let mut k = a;
    while k < b
        invariant
            a <= k <= b <= s@.len(),
            r@ == s@.subrange(a as int, k as int),
        decreases b - k,
    {
        r.push(s[k]);
        k += 1;
        assert(r@ =~= s@.subrange(a as int, k as int));
    }
    r
}

/// Reads the device's answer: the text between the first `SIGNATURE:` label
/// and the first `PUBLIC_KEY:` label, and the text after the latter, both
/// without white space at their ends.
pub fn parse_signed_response(response: &[u8]) -> (r: Result<(Vec<u8>, Vec<u8>), ResponseError>)
    ensures
        match r {
            Ok((sig, pk)) => exists|i: int, j: int|
                first_match(response@, signature_label(), i) && first_match(
                    response@,
                    public_key_label(),
                    j,
                ) && i + 10 <= j && sig@ == trim(response@.subrange(i + 10, j)) && pk@ == trim(
                    response@.subrange(j + 11, response@.len() as int),
                ),
            Err(ResponseError::MissingSignature) => forall|i: int|
                !#[trigger] matches_at(response@, i, signature_label()),
            Err(ResponseError::MissingPublicKey) => forall|j: int|
                !#[trigger] matches_at(response@, j, public_key_label()),
            Err(ResponseError::OutOfOrder) => exists|i: int, j: int|
                first_match(response@, signature_label(), i) && first_match(
                    response@,
                    public_key_label(),
                    j,
                ) && j < i + 10,
        },
{
    let n = response.len();
    let sig_label: [u8; 10] = [83, 73, 71, 78, 65, 84, 85, 82, 69, 58];
    let pk_label: [u8; 11] = [80, 85, 66, 76, 73, 67, 95, 75, 69, 89, 58];
    assert(sig_label@ =~= signature_label());
    assert(pk_label@ =~= public_key_label());
    let i = match find_tag(response, sig_label.as_slice()) {
        Some(i) => i,
        None => {
            return Err(ResponseError::MissingSignature);
        },
    };
    let j = match find_tag(response, pk_label.as_slice()) {
        Some(j) => j,
        None => {
            return Err(ResponseError::MissingPublicKey);
        },
    };
    if j < i + 10 {
        return Err(ResponseError::OutOfOrder);
    }
    let sig = trimmed(response, i + 10, j);
    let pk = trimmed(response, j + 11, n);
    Ok((sig, pk))
}

} // verus!
