use vstd::prelude::*;
use vstd::utf8::encode_utf8;

use crate::error::ObjError;

verus! {

/// The closed set of object kinds.
#[derive(Debug, Clone, Copy, PartialEq, Eq, Structural)]
pub enum ObjType {
    Blob,
    Tree,
    Commit,
    Tag,
}

/// The textual discriminator that opens an object's header, in ASCII:
/// `blob`, `tree`, `commit`, `tag`.
pub open spec fn kind_name(k: ObjType) -> Seq<u8> {
    match k {
        ObjType::Blob => seq![98u8, 108u8, 111u8, 98u8],
        ObjType::Tree => seq![116u8, 114u8, 101u8, 101u8],
        ObjType::Commit => seq![99u8, 111u8, 109u8, 109u8, 105u8, 116u8],
        ObjType::Tag => seq![116u8, 97u8, 103u8],
    }
}

/// The kind whose name is `tag`, if any.
pub open spec fn kind_of_name(tag: Seq<u8>) -> Option<ObjType> {
    if tag == kind_name(ObjType::Blob) {
        Some(ObjType::Blob)
    } else if tag == kind_name(ObjType::Tree) {
        Some(ObjType::Tree)
    } else if tag == kind_name(ObjType::Commit) {
        Some(ObjType::Commit)
    } else if tag == kind_name(ObjType::Tag) {
        Some(ObjType::Tag)
    } else {
        None
    }
}

/// Each kind is recovered from its own name.
pub proof fn lemma_kind_name_inverse(k: ObjType)
    ensures
        kind_of_name(kind_name(k)) == Some(k),
        1 <= kind_name(k).len() <= 6,
        forall|i: int| 0 <= i < kind_name(k).len() ==> kind_name(k)[i] != 32u8 && kind_name(k)[i] != 0u8,
{
    match k {
        ObjType::Blob => {}
        ObjType::Tree => {
            assert(kind_name(ObjType::Tree)[0] != kind_name(ObjType::Blob)[0]);
        }
        ObjType::Commit => {}
        ObjType::Tag => {}
    }
}

impl ObjType {
    /// The bytes of this kind's name.
    pub fn name_bytes(&self) -> (r: Vec<u8>)
        ensures
            r@ == kind_name(*self),
    {
        match self {
            ObjType::Blob => vec![98u8, 108u8, 111u8, 98u8],
            ObjType::Tree => vec![116u8, 114u8, 101u8, 101u8],
            ObjType::Commit => vec![99u8, 111u8, 109u8, 109u8, 105u8, 116u8],
            ObjType::Tag => vec![116u8, 97u8, 103u8],
        }
    }
}


/// `p` occurs in `s` starting at index `i`.
pub open spec fn occurs_at(s: Seq<u8>, p: Seq<u8>, i: int) -> bool {
    0 <= i && i + p.len() <= s.len() && s.subrange(i, i + p.len()) == p
}

/// `p` occurs somewhere in `s` (the empty sequence occurs in every sequence).
pub open spec fn contains_bytes(s: Seq<u8>, p: Seq<u8>) -> bool {
    exists|i: int| #[trigger] occurs_at(s, p, i)
}

/// The UTF-8 bytes of each name.
pub open spec fn names_bytes(names: Seq<String>) -> Seq<Seq<u8>> {
    names.map_values(|n: String| encode_utf8(n@))
}

/// How many of `names` contain `p`.
pub open spec fn count_matches(names: Seq<Seq<u8>>, p: Seq<u8>) -> nat
    decreases names.len(),
{
    if names.len() == 0 {
        0
    } else {
        count_matches(names.drop_last(), p) + if contains_bytes(names.last(), p) {
            1nat
        } else {
            0nat
        }
    }
}

/// Counting over a longer front part of the names never gives less.
pub proof fn lemma_count_matches_monotone(names: Seq<Seq<u8>>, p: Seq<u8>, i: int, j: int)
    requires
        0 <= i <= j <= names.len(),
    ensures
        count_matches(names.take(i), p) <= count_matches(names.take(j), p),
    decreases j - i,
{
    if i < j {
        lemma_count_matches_monotone(names, p, i, j - 1);
        assert(names.take(j).drop_last() =~= names.take(j - 1));
    }
}

/// Two names that both contain the pattern make the lookup ambiguous.
pub proof fn lemma_two_matches_ambiguous(names: Seq<Seq<u8>>, p: Seq<u8>, i: int, j: int)
    requires
        0 <= i < j < names.len(),
        contains_bytes(names[i], p),
        contains_bytes(names[j], p),
    ensures
        count_matches(names, p) > 1,
{
    assert(names.take(i + 1).drop_last() =~= names.take(i));
    assert(names.take(j + 1).drop_last() =~= names.take(j));
    lemma_count_matches_monotone(names, p, i + 1, j);
    lemma_count_matches_monotone(names, p, j + 1, names.len() as int);
    assert(names.take(names.len() as int) =~= names);
}

/// Whether `a[lo..hi]` equals `b`.
pub fn bytes_eq(a: &[u8], lo: usize, hi: usize, b: &[u8]) -> (r: bool)
    requires
        lo <= hi <= a@.len(),
    ensures
        r == (a@.subrange(lo as int, hi as int) == b@),
{
    if hi - lo != b.len() {
        return false;
    }
    let mut k: usize = 0;
    while k < b.len()
        invariant
            hi - lo == b@.len(),
            lo <= hi <= a@.len(),
            k <= b@.len(),
            forall|t: int| 0 <= t < k ==> a@[lo + t] == b@[t],
        decreases b@.len() - k,
    {
        if a[lo + k] != b[k] {
            return false;
        }
        k = k + 1;
    }
    assert(a@.subrange(lo as int, hi as int) =~= b@);
    true
}

/// Whether `p` occurs in `s`.
pub fn bytes_contain(s: &[u8], p: &[u8]) -> (r: bool)
    ensures
        r == contains_bytes(s@, p@),
{
    if p.len() > s.len() {
        return false;
    }
    let last: usize = s.len() - p.len();
    let mut i: usize = 0;
    while i <= last
        invariant
            last == s@.len() - p@.len(),
            p@.len() <= s@.len(),
            s@.len() <= usize::MAX,
            i <= last,
            forall|j: int| 0 <= j < i ==> !occurs_at(s@, p@, j),
        decreases last - i,
    {
        if bytes_eq(s, i, i + p.len(), p) {
            assert(occurs_at(s@, p@, i as int));
            return true;
        }
        if i == last {
            assert forall|j: int| !occurs_at(s@, p@, j) by {
                if occurs_at(s@, p@, j) && j >= i {
                    assert(j == i);
                }
            }
            return false;
        }
        i = i + 1;
    }
    false
}

/// Picks, among `file_names`, the one whose name contains `file_name` anywhere in it.
/// `Ok(None)` when none does, `AmbiguousPrefix` when more than one does.
#[verifier::rlimit(30)]
pub fn find_file_by_name(file_names: &Vec<String>, file_name: &str) -> (r: Result<
    Option<usize>,
    ObjError,
>)
    ensures
        (r == Ok::<Option<usize>, ObjError>(None)) <==> count_matches(
            names_bytes(file_names@),
            encode_utf8(file_name@),
        ) == 0,
        (r == Err::<Option<usize>, ObjError>(ObjError::AmbiguousPrefix)) <==> count_matches(
            names_bytes(file_names@),
            encode_utf8(file_name@),
        ) > 1,
        r is Err ==> r == Err::<Option<usize>, ObjError>(ObjError::AmbiguousPrefix),
        r matches Ok(Some(i)) ==> i < file_names@.len() && contains_bytes(
            encode_utf8(file_names@[i as int]@),
            encode_utf8(file_name@),
        ) && count_matches(names_bytes(file_names@), encode_utf8(file_name@)) == 1,
{
    let ghost names = names_bytes(file_names@);
    let ghost p = encode_utf8(file_name@);
    let pattern = file_name.as_bytes();
    let mut found: Option<usize> = None;
    let mut i: usize = 0;
    while i < file_names.len()
        invariant
            names == names_bytes(file_names@),
            p == pattern@,
            p == encode_utf8(file_name@),
            i <= file_names@.len(),
            names.len() == file_names@.len(),
            count_matches(names.take(i as int), p) <= 1,
            found is None <==> count_matches(names.take(i as int), p) == 0,
            found matches Some(f) ==> f < i && contains_bytes(names[f as int], p),
        decreases file_names@.len() - i,
    {
        let name = file_names[i].as_str();
        let hit = bytes_contain(name.as_bytes(), pattern);
        proof {
            assert(names[i as int] == encode_utf8(file_names@[i as int]@));
            assert(names.take(i + 1).drop_last() =~= names.take(i as int));
            assert(names.take(i + 1).last() == names[i as int]);
            assert(count_matches(names.take(i + 1), p) == count_matches(names.take(i as int), p)
                + if hit { 1nat } else { 0nat });
        }
        if hit {
            if found.is_some() {
                proof {
                    assert(count_matches(names.take(i + 1), p) == 2);
                    lemma_count_matches_monotone(names, p, i + 1, names.len() as int);
                    assert(names.take(names.len() as int) =~= names);
                }
                return Err(ObjError::AmbiguousPrefix);
            }
            found = Some(i);
        }
        i = i + 1;
    }
    assert(names.take(names.len() as int) =~= names);
    Ok(found)
}

/// A filesystem path, carried through opaquely.
#[verifier::external_type_specification]
#[verifier::external_body]
pub struct ExPathBuf(std::path::PathBuf);

/// Relies on std::path::Path::canonicalize: the absolute form of the path with every
/// symbolic link, `.` and `..` resolved, or the error the filesystem gave. What it
/// returns depends on the disk, so nothing more is claimed.
#[verifier::external_body]
fn canonicalize(path: &std::path::PathBuf) -> (r: Result<std::path::PathBuf, std::io::Error>) {
    path.canonicalize()
}

/// The absolute, symlink-resolved form of `path`; a path that cannot be resolved
/// (for one, because it does not exist) is an I/O failure.
pub fn get_absolute_path(path: &std::path::PathBuf) -> (r: Result<std::path::PathBuf, ObjError>)
    ensures
        r matches Err(e) ==> e == ObjError::IoError,
{
    match canonicalize(path) {
        Ok(p) => Ok(p),
        Err(_) => Err(ObjError::IoError),
    }
}

} // verus!
