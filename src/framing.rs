use sha1::Digest;
use vstd::prelude::*;
use vstd::slice::slice_subrange;

use crate::utlis::{kind_name, ObjType};

verus! {

/// The decimal text of `n`, most significant digit first, with no leading zero.
pub open spec fn decimal(n: nat) -> Seq<u8>
    decreases n,
{
    if n < 10 {
        seq![(48 + n) as u8]
    } else {
        decimal(n / 10).push((48 + n % 10) as u8)
    }
}

/// `<kind-name> <length>\0`: the name, an ASCII space, the decimal length, a NUL.
pub open spec fn header(k: ObjType, len: nat) -> Seq<u8> {
    kind_name(k) + seq![32u8] + decimal(len) + seq![0u8]
}

/// The canonical framing of an object: its header followed by its payload.
pub open spec fn frame(k: ObjType, payload: Seq<u8>) -> Seq<u8> {
    header(k, payload.len()) + payload
}

/// What the SHA-1 digest of `data` is.
pub uninterp spec fn sha1_of(data: Seq<u8>) -> Seq<u8>;

/// The identity of an object: the digest of its canonical framing.
pub open spec fn fingerprint(k: ObjType, payload: Seq<u8>) -> Seq<u8> {
    sha1_of(frame(k, payload))
}

/// The lowercase hexadecimal digit for a value below sixteen.
pub open spec fn hex_digit(v: u8) -> char {
    seq!['0', '1', '2', '3', '4', '5', '6', '7', '8', '9', 'a', 'b', 'c', 'd', 'e', 'f'][v as int]
}

/// Two lowercase hexadecimal digits per byte, high nibble first.
pub open spec fn hex_text(b: Seq<u8>) -> Seq<char>
    decreases b.len(),
{
    if b.len() == 0 {
        Seq::empty()
    } else {
        hex_text(b.drop_last()) + seq![hex_digit(b.last() / 16), hex_digit(b.last() % 16)]
    }
}

/// Every digit of a decimal text is an ASCII digit, and there is at least one.
pub proof fn lemma_decimal_digits(n: nat)
    ensures
        decimal(n).len() >= 1,
        forall|i: int| 0 <= i < decimal(n).len() ==> 48 <= #[trigger] decimal(n)[i] <= 57,
    decreases n,
{
    if n >= 10 {
        lemma_decimal_digits(n / 10);
    }
}

/// Hex text distributes over concatenation.
pub proof fn lemma_hex_text_concat(a: Seq<u8>, b: Seq<u8>)
    ensures
        hex_text(a + b) == hex_text(a) + hex_text(b),
    decreases b.len(),
{
    if b.len() == 0 {
        assert(a + b =~= a);
        assert(hex_text(a) + hex_text(b) =~= hex_text(a));
    } else {
        lemma_hex_text_concat(a, b.drop_last());
        assert((a + b).drop_last() =~= a + b.drop_last());
        assert(hex_text(a + b) =~= hex_text(a) + hex_text(b));
    }
}

/// Two hex digits per byte.
pub proof fn lemma_hex_len(a: Seq<u8>)
    ensures
        hex_text(a).len() == 2 * a.len(),
    decreases a.len(),
{
    if a.len() > 0 {
        lemma_hex_len(a.drop_last());
    }
}

/// Fingerprinting is deterministic: two computations of the id of the same kind and
/// payload give identical bytes.
pub proof fn lemma_fingerprint_deterministic(k: ObjType, payload: Seq<u8>, first: Seq<u8>, second: Seq<u8>)
    requires
        first == fingerprint(k, payload),
        second == fingerprint(k, payload),
    ensures
        first == second,
{
}

/// The decimal text of `n`.
pub fn decimal_digits(n: usize) -> (r: Vec<u8>)
    ensures
        r@ == decimal(n as nat),
    decreases n,
{
    if n < 10 {
        vec![(48 + n) as u8]
    } else {
        let mut r = decimal_digits(n / 10);
        r.push((48 + n % 10) as u8);
        r
    }
}

/// Builds the canonical framing of a `tp` object holding `data`.
pub fn format_object_content(tp: &ObjType, data: &[u8]) -> (r: Vec<u8>)
    ensures
        r@ == frame(*tp, data@),
{
    let mut out = tp.name_bytes();
    out.push(32u8);
    let digits = decimal_digits(data.len());
    out.extend_from_slice(digits.as_slice());
    out.push(0u8);
    out.extend_from_slice(data);
    assert(out@ =~= frame(*tp, data@));
    out
}

/// Relies on sha1::Sha1::digest: the SHA-1 digest of the bytes.
#[verifier::external_body]
fn sha1_digest(data: &[u8]) -> (r: [u8; 20])
    ensures
        r@ == sha1_of(data@),
{
    sha1::Sha1::digest(data).into()
}

/// The object id of a `tp` object holding `data`.
pub fn compute_oid(tp: &ObjType, data: &[u8]) -> (r: [u8; 20])
    ensures
        r@ == fingerprint(*tp, data@),
{
    let framed = format_object_content(tp, data);
    sha1_digest(framed.as_slice())
}

/// Relies on hex::encode: lowercase hexadecimal, two digits per byte, high nibble first.
#[verifier::external_body]
fn hex_encode(data: &[u8]) -> (r: String)
    ensures
        r@ == hex_text(data@),
{
    hex::encode(data)
}

/// The hexadecimal text of an object id.
pub fn oid_hex(oid: &[u8; 20]) -> (r: String)
    ensures
        r@ == hex_text(oid@),
        r@.len() == 40,
{
    proof {
        lemma_hex_len(oid@);
    }
    hex_encode(oid.as_slice())
}

/// Where an object id is stored: a directory named by the first two hex digits and a
/// file named by the remaining thirty-eight.
pub fn object_location(oid: &[u8; 20]) -> (r: (String, String))
    ensures
        r.0@ == hex_text(oid@).subrange(0, 2),
        r.1@ == hex_text(oid@).subrange(2, 40),
        r.0@ + r.1@ == hex_text(oid@),
        hex_text(oid@).len() == 40,
{
    let bytes = oid.as_slice();
    let dir = hex_encode(slice_subrange(bytes, 0, 1));
    let file = hex_encode(slice_subrange(bytes, 1, 20));
    proof {
        lemma_hex_text_concat(oid@.subrange(0, 1), oid@.subrange(1, 20));
        assert(oid@.subrange(0, 1) + oid@.subrange(1, 20) =~= oid@);
        lemma_hex_len(oid@);
        lemma_hex_len(oid@.subrange(0, 1));
        assert(dir@ =~= hex_text(oid@).subrange(0, 2));
        assert(file@ =~= hex_text(oid@).subrange(2, 40));
    }
    (dir, file)
}

} // verus!
