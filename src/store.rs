use flate2::read::ZlibDecoder;
use flate2::write::ZlibEncoder;
use flate2::Compression;
use std::io::{Read, Write};
use vstd::prelude::*;
use vstd::utf8::{
    encode_scalar, encode_utf8, encode_utf8_first_scalar, encode_utf8_valid_utf8, is_char_boundary,
    pop_first_scalar, valid_utf8,
};

use crate::error::ObjError;
use crate::framing::{
    decimal, decimal_digits, fingerprint, format_object_content, frame, hex_digit, hex_text,
    lemma_decimal_digits, lemma_hex_len,
};
use crate::utlis::{
    bytes_eq, find_file_by_name, kind_name, kind_of_name, lemma_kind_name_inverse, names_bytes,
    contains_bytes, count_matches, ObjType,
};

verus! {

/// `i` is the first position of byte `b` in `s`.
pub open spec fn is_first(s: Seq<u8>, b: u8, i: int) -> bool {
    0 <= i < s.len() && s[i] == b && forall|j: int| 0 <= j < i ==> s[j] != b
}

/// The first position of byte `b` in `s`, or -1 when it does not occur.
pub open spec fn first_index(s: Seq<u8>, b: u8) -> int {
    if exists|i: int| is_first(s, b, i) {
        choose|i: int| is_first(s, b, i)
    } else {
        -1
    }
}

/// The kind that a canonical framing declares, or why it is not one.
/// The header runs to the first NUL; the kind tag is what precedes the first space,
/// which must come before that NUL; between them stands the decimal length of what
/// follows the NUL.
pub open spec fn parse_framed(s: Seq<u8>) -> Result<ObjType, ObjError> {
    let sp = first_index(s, 32u8);
    let nul = first_index(s, 0u8);
    if sp < 0 || nul < sp {
        Err(ObjError::CorruptObject)
    } else {
        match kind_of_name(s.subrange(0, sp)) {
            None => Err(ObjError::InvalidObjectKind),
            Some(k) => if s.subrange(sp + 1, nul) == decimal((s.len() - nul - 1) as nat) {
                Ok(k)
            } else {
                Err(ObjError::CorruptObject)
            },
        }
    }
}

/// What reading back the framing `s` gives: its kind with the whole framing.
pub open spec fn parsed(s: Seq<u8>) -> Result<(ObjType, Seq<u8>), ObjError> {
    match parse_framed(s) {
        Ok(k) => Ok((k, s)),
        Err(e) => Err(e),
    }
}

/// The model of a read result: the kind and the bytes of the returned framing.
pub open spec fn read_view(r: Result<(ObjType, Vec<u8>), ObjError>) -> Result<(ObjType, Seq<u8>), ObjError> {
    match r {
        Ok((k, v)) => Ok((k, v@)),
        Err(e) => Err(e),
    }
}

proof fn lemma_first_unique(s: Seq<u8>, b: u8, i: int)
    requires
        is_first(s, b, i),
    ensures
        first_index(s, b) == i,
{
    let c = choose|c: int| is_first(s, b, c);
    assert(is_first(s, b, c));
    if c < i {
        assert(s[c] != b);
    } else if c > i {
        assert(s[i] != b);
    }
}

/// The first position of `b` in `s`.
fn find_first(s: &[u8], b: u8) -> (r: Option<usize>)
    ensures
        match r {
            Some(i) => first_index(s@, b) == i,
            None => first_index(s@, b) == -1,
        },
{
    let mut i: usize = 0;
    while i < s.len()
        invariant
            i <= s@.len(),
            forall|j: int| 0 <= j < i ==> s@[j] != b,
        decreases s@.len() - i,
    {
        if s[i] == b {
            proof {
                lemma_first_unique(s@, b, i as int);
            }
            return Some(i);
        }
        i = i + 1;
    }
    assert(!exists|j: int| is_first(s@, b, j));
    None
}

/// The kind named by `s[0..end]`, if any.
fn kind_from_tag(s: &[u8], end: usize) -> (r: Option<ObjType>)
    requires
        end <= s@.len(),
    ensures
        r == kind_of_name(s@.subrange(0, end as int)),
{
    let blob = ObjType::Blob.name_bytes();
    if bytes_eq(s, 0, end, blob.as_slice()) {
        return Some(ObjType::Blob);
    }
    let tree = ObjType::Tree.name_bytes();
    if bytes_eq(s, 0, end, tree.as_slice()) {
        return Some(ObjType::Tree);
    }
    let commit = ObjType::Commit.name_bytes();
    if bytes_eq(s, 0, end, commit.as_slice()) {
        return Some(ObjType::Commit);
    }
    let tag = ObjType::Tag.name_bytes();
    if bytes_eq(s, 0, end, tag.as_slice()) {
        return Some(ObjType::Tag);
    }
    None
}

/// Reads the kind out of a canonical framing; on success hands back the whole framing.
pub fn parse_object(data: Vec<u8>) -> (r: Result<(ObjType, Vec<u8>), ObjError>)
    ensures
        read_view(r) == parsed(data@),
{
    let s = data.as_slice();
    let sp = match find_first(s, 32u8) {
        Some(i) => i,
        None => return Err(ObjError::CorruptObject),
    };
    let nul = match find_first(s, 0u8) {
        Some(i) => i,
        None => return Err(ObjError::CorruptObject),
    };
    if nul < sp {
        return Err(ObjError::CorruptObject);
    }
    let kind = match kind_from_tag(s, sp) {
        Some(k) => k,
        None => return Err(ObjError::InvalidObjectKind),
    };
    let digits = decimal_digits(s.len() - nul - 1);
    if !bytes_eq(s, sp + 1, nul, digits.as_slice()) {
        return Err(ObjError::CorruptObject);
    }
    Ok((kind, data))
}

/// Reading back a canonical framing gives the kind it was built with, together with
/// the framing itself.
pub proof fn lemma_parse_frame(k: ObjType, payload: Seq<u8>)
    ensures
        parse_framed(frame(k, payload)) == Ok::<ObjType, ObjError>(k),
        parsed(frame(k, payload)) == Ok::<(ObjType, Seq<u8>), ObjError>((k, frame(k, payload))),
{
    let s = frame(k, payload);
    let name = kind_name(k);
    let digits = decimal(payload.len());
    let l = name.len() as int;
    let d = digits.len() as int;
    lemma_kind_name_inverse(k);
    lemma_decimal_digits(payload.len());
    assert(s.len() == l + 1 + d + 1 + payload.len());
    assert forall|j: int| 0 <= j < l implies s[j] == name[j] by {}
    assert forall|j: int| 0 <= j < d implies s[l + 1 + j] == digits[j] by {}
    assert(s[l] == 32u8);
    assert(s[l + 1 + d] == 0u8);
    assert(is_first(s, 32u8, l));
    assert forall|j: int| 0 <= j < l + 1 + d implies s[j] != 0u8 by {
        if j < l {
        } else if j == l {
        } else {
            assert(s[j] == digits[j - l - 1]);
        }
    }
    assert(is_first(s, 0u8, l + 1 + d));
    lemma_first_unique(s, 32u8, l);
    lemma_first_unique(s, 0u8, l + 1 + d);
    assert(s.subrange(0, l) =~= name);
    assert(s.subrange(l + 1, l + 1 + d) =~= digits);
    assert(s.len() - (l + 1 + d) - 1 == payload.len());
}

/// Storing the same kind and payload twice gives the same id, hence the same storage
/// directory and file name, and the same record bytes: the second store finds the
/// first one's record in place and has nothing to write.
pub proof fn lemma_store_idempotent(
    k: ObjType,
    payload: Seq<u8>,
    first_id: Seq<u8>,
    second_id: Seq<u8>,
    first_record: Seq<u8>,
    second_record: Seq<u8>,
)
    requires
        first_id == fingerprint(k, payload),
        second_id == fingerprint(k, payload),
        first_record == zlib_of(frame(k, payload)),
        second_record == zlib_of(frame(k, payload)),
    ensures
        first_id == second_id,
        hex_text(first_id).subrange(0, 2) == hex_text(second_id).subrange(0, 2),
        hex_text(first_id).subrange(2, 40) == hex_text(second_id).subrange(2, 40),
        first_record == second_record,
{
}

proof fn lemma_encode_utf8_concat(a: Seq<char>, b: Seq<char>)
    ensures
        encode_utf8(a + b) == encode_utf8(a) + encode_utf8(b),
    decreases a.len(),
{
    if a.len() == 0 {
        assert(a + b =~= b);
    } else {
        assert((a + b).drop_first() =~= a.drop_first() + b);
        lemma_encode_utf8_concat(a.drop_first(), b);
        assert(encode_utf8(a + b) =~= encode_utf8(a) + encode_utf8(b));
    }
}

proof fn lemma_boundary_after(a: Seq<char>, b: Seq<char>)
    ensures
        is_char_boundary(encode_utf8(a + b), encode_utf8(a).len() as int),
    decreases a.len(),
{
    encode_utf8_valid_utf8(a + b);
    if a.len() > 0 {
        let bytes = encode_utf8(a + b);
        encode_utf8_first_scalar(a + b);
        assert((a + b).drop_first() =~= a.drop_first() + b);
        assert(pop_first_scalar(bytes) =~= encode_utf8(a.drop_first() + b));
        lemma_encode_utf8_concat(a.drop_first(), b);
        lemma_encode_utf8_concat(a, b);
        encode_utf8_valid_utf8(a.drop_first() + b);
        lemma_boundary_after(a.drop_first(), b);
    }
}

proof fn lemma_hex_digits_ascii(b: Seq<u8>)
    ensures
        forall|i: int| 0 <= i < hex_text(b).len() ==> (#[trigger] hex_text(b)[i] as u32) < 128,
    decreases b.len(),
{
    if b.len() > 0 {
        lemma_hex_digits_ascii(b.drop_last());
        let hi = b.last() / 16;
        let lo = b.last() % 16;
        assert((hex_digit(hi) as u32) < 128) by {
            assert(hi < 16);
        }
        assert((hex_digit(lo) as u32) < 128) by {
            assert(lo < 16);
        }
        let h = hex_text(b);
        let front = hex_text(b.drop_last());
        assert(h == front + seq![hex_digit(hi), hex_digit(lo)]);
        assert forall|i: int| 0 <= i < h.len() implies (#[trigger] h[i] as u32) < 128 by {
            if i < front.len() {
                assert(h[i] == front[i]);
            } else if i == front.len() {
                assert(h[i] == hex_digit(hi));
            } else {
                assert(h[i] == hex_digit(lo));
            }
        }
    }
}

/// Reading back by the full id finds the stored record: the id's hex text, as a lookup
/// key, splits into exactly the directory and the file name that the store used, and
/// that file name contains the rest of the key.
pub proof fn lemma_full_id_lookup(oid: Seq<u8>)
    requires
        oid.len() == 20,
    ensures
        encode_utf8(hex_text(oid)).len() >= 2,
        is_char_boundary(encode_utf8(hex_text(oid)), 2),
        encode_utf8(hex_text(oid)).subrange(0, 2) == encode_utf8(hex_text(oid).subrange(0, 2)),
        encode_utf8(hex_text(oid)).subrange(2, encode_utf8(hex_text(oid)).len() as int)
            == encode_utf8(hex_text(oid).subrange(2, 40)),
        contains_bytes(
            encode_utf8(hex_text(oid).subrange(2, 40)),
            encode_utf8(hex_text(oid).subrange(2, 40)),
        ),
{
    let h = hex_text(oid);
    lemma_hex_len(oid);
    let d = h.subrange(0, 2);
    let f = h.subrange(2, 40);
    assert(d + f =~= h);
    lemma_encode_utf8_concat(d, f);
    lemma_hex_digits_ascii(oid);
    assert(d.drop_first().drop_first() =~= Seq::<char>::empty());
    let d1 = d.drop_first();
    assert(d1[0] == d[1]);
    assert(encode_utf8(d1.drop_first()).len() == 0);
    assert(encode_utf8(d1) == encode_scalar(d1[0] as u32) + encode_utf8(d1.drop_first()));
    assert(encode_utf8(d) == encode_scalar(d[0] as u32) + encode_utf8(d1));
    assert(encode_utf8(d).len() == 2);
    lemma_boundary_after(d, f);
    let ef = encode_utf8(f);
    assert(ef.subrange(0, ef.len() as int) =~= ef);
    assert(crate::utlis::occurs_at(ef, ef, 0));
    assert(encode_utf8(h).subrange(0, 2) =~= encode_utf8(d));
    assert(encode_utf8(h).subrange(2, encode_utf8(h).len() as int) =~= ef);
}

/// What flate2's zlib encoder, at its default level, produces from `data`.
pub uninterp spec fn zlib_of(data: Seq<u8>) -> Seq<u8>;

/// Relies on flate2::write::ZlibEncoder with Compression::default(): the zlib stream of
/// the bytes. Writing into an in-memory buffer does not fail, and the compressor errs
/// only on a preset dictionary or a misused stream, neither of which one write followed
/// by `finish` can meet.
#[verifier::external_body]
fn zlib_compress(data: &[u8]) -> (r: Result<Vec<u8>, std::io::Error>)
    ensures
        r is Ok,
        r matches Ok(v) ==> v@ == zlib_of(data@),
{
    let mut e = ZlibEncoder::new(Vec::new(), Compression::default());
    e.write_all(data)?;
    e.finish()
}

/// What flate2's zlib decoder gives for `data` read to its end: the decoded bytes, or
/// `None` when `data` is not a well-formed zlib stream.
pub uninterp spec fn inflate_of(data: Seq<u8>) -> Option<Seq<u8>>;

/// Relies on flate2::read::ZlibDecoder read to its end: the decoded bytes, or an error
/// when the input is not a zlib stream. Reading from a byte slice does no I/O, so the
/// outcome depends on the bytes alone. Zlib is lossless, so a stream that the encoder
/// produced from some bytes decodes to exactly those bytes.
#[verifier::external_body]
fn zlib_decompress(data: &[u8]) -> (r: Result<Vec<u8>, std::io::Error>)
    ensures
        r is Ok <==> inflate_of(data@) is Some,
        r matches Ok(v) ==> inflate_of(data@) == Some(v@),
        forall|x: Seq<u8>| #[trigger] zlib_of(x) == data@ ==> r is Ok && r->Ok_0@ == x,
{
    let mut d = ZlibDecoder::new(data);
    let mut out = Vec::new();
    d.read_to_end(&mut out)?;
    Ok(out)
}

/// The on-disk form of a `tp` object holding `data`: its compressed canonical framing.
pub fn encode_object(tp: &ObjType, data: &[u8]) -> (r: Result<Vec<u8>, ObjError>)
    ensures
        r is Ok,
        r matches Ok(v) ==> v@ == zlib_of(frame(*tp, data@)),
{
    let framed = format_object_content(tp, data);
    match zlib_compress(framed.as_slice()) {
        Ok(v) => Ok(v),
        Err(_) => Err(ObjError::IoError),
    }
}

/// Decompresses a stored record and reads its kind. On success returns the kind with
/// the whole decompressed framing, header included; bytes that do not decompress are
/// a corrupt object.
pub fn decode_object(compressed: &[u8]) -> (r: Result<(ObjType, Vec<u8>), ObjError>)
    ensures
        read_view(r) == match inflate_of(compressed@) {
            None => Err(ObjError::CorruptObject),
            Some(x) => parsed(x),
        },
        forall|x: Seq<u8>| #[trigger] zlib_of(x) == compressed@ ==> read_view(r) == parsed(x),
        r matches Ok((k, v)) ==> parse_framed(v@) == Ok::<ObjType, ObjError>(k),
        r matches Err(e) ==> (e == ObjError::CorruptObject || e == ObjError::InvalidObjectKind),
{
    match zlib_decompress(compressed) {
        Ok(framed) => {
            let r = parse_object(framed);
            proof {
                lemma_parse_errors(framed@);
            }
            r
        },
        Err(_) => Err(ObjError::CorruptObject),
    }
}

proof fn lemma_parse_errors(s: Seq<u8>)
    ensures
        parse_framed(s) matches Err(e) ==> (e == ObjError::CorruptObject || e
            == ObjError::InvalidObjectKind),
{
}

/// Splits a lookup key into its two-byte directory selector and the rest.
/// A key shorter than two bytes is too short; one whose second byte ends inside a
/// character selects no object directory, since those are named by two hex digits.
pub fn split_prefix(prefix: &str) -> (r: Result<(String, String), ObjError>)
    ensures
        (r == Err::<(String, String), ObjError>(ObjError::PrefixTooShort)) <==> encode_utf8(
            prefix@,
        ).len() < 2,
        (r == Err::<(String, String), ObjError>(ObjError::ObjectNotFound)) <==> (encode_utf8(
            prefix@,
        ).len() >= 2 && !is_char_boundary(encode_utf8(prefix@), 2)),
        r is Ok <==> (encode_utf8(prefix@).len() >= 2 && is_char_boundary(encode_utf8(prefix@), 2)),
        r matches Ok((d, f)) ==> encode_utf8(d@) == encode_utf8(prefix@).subrange(0, 2)
            && encode_utf8(f@) == encode_utf8(prefix@).subrange(
            2,
            encode_utf8(prefix@).len() as int,
        ),
{
    if prefix.as_bytes().len() < 2 {
        return Err(ObjError::PrefixTooShort);
    }
    if !prefix.is_char_boundary(2) {
        return Err(ObjError::ObjectNotFound);
    }
    let (dir, rest) = prefix.split_at(2);
    Ok((dir.to_owned(), rest.to_owned()))
}

/// Resolves the rest of a lookup key against the names in the selected object
/// directory (`None` when that directory does not exist) to the index of the one
/// name that contains it.
pub fn resolve_in_directory(listing: &Option<Vec<String>>, rest: &str) -> (r: Result<usize, ObjError>)
    ensures
        match listing {
            None => r == Err::<usize, ObjError>(ObjError::ObjectNotFound),
            Some(names) => {
                let n = count_matches(names_bytes(names@), encode_utf8(rest@));
                &&& (r == Err::<usize, ObjError>(ObjError::ObjectNotFound)) <==> n == 0
                &&& (r == Err::<usize, ObjError>(ObjError::AmbiguousPrefix)) <==> n > 1
                &&& r matches Ok(i) ==> n == 1 && i < names@.len() && contains_bytes(
                    encode_utf8(names@[i as int]@),
                    encode_utf8(rest@),
                )
            },
        },
        r matches Err(e) ==> (e == ObjError::ObjectNotFound || e == ObjError::AmbiguousPrefix),
{
    match listing {
        None => Err(ObjError::ObjectNotFound),
        Some(names) => match find_file_by_name(names, rest) {
            Ok(Some(i)) => Ok(i),
            Ok(None) => Err(ObjError::ObjectNotFound),
            Err(e) => Err(e),
        },
    }
}

} // verus!
