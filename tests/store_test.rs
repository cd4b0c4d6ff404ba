use std::path::PathBuf;

use zgit::framing::decimal_digits;
use zgit::utlis::{bytes_contain, find_file_by_name, get_absolute_path, ObjType};
use zgit::{
    compute_oid, decode_object, encode_object, format_object_content, locate_step, object_location,
    oid_hex, parse_object, resolve_in_directory, split_prefix, LocateStep, ObjError,
};

fn names(list: &[&str]) -> Vec<String> {
    list.iter().map(|s| s.to_string()).collect()
}

#[test]
fn fingerprint_is_deterministic() {
    let a = compute_oid(&ObjType::Tree, b"some tree payload");
    let b = compute_oid(&ObjType::Tree, b"some tree payload");
    assert_eq!(a, b);
    assert_ne!(a, compute_oid(&ObjType::Blob, b"some tree payload"));
}

#[test]
fn round_trip_every_kind() {
    for kind in [ObjType::Blob, ObjType::Tree, ObjType::Commit, ObjType::Tag] {
        let payload: &[u8] = b"payload with spaces \0 and a NUL";
        let record = encode_object(&kind, payload).unwrap();
        let (k, framed) = decode_object(&record).unwrap();
        assert_eq!(k, kind);
        assert_eq!(framed, format_object_content(&kind, payload));
    }
}

#[test]
fn round_trip_empty_payload() {
    let record = encode_object(&ObjType::Blob, b"").unwrap();
    let (k, framed) = decode_object(&record).unwrap();
    assert_eq!(k, ObjType::Blob);
    assert_eq!(framed, b"blob 0\0");
}

#[test]
fn storing_twice_is_identical() {
    let first = encode_object(&ObjType::Commit, b"same").unwrap();
    let second = encode_object(&ObjType::Commit, b"same").unwrap();
    assert_eq!(first, second);
    let a = compute_oid(&ObjType::Commit, b"same");
    let b = compute_oid(&ObjType::Commit, b"same");
    assert_eq!(object_location(&a), object_location(&b));
}

#[test]
fn record_is_compressed_not_plain() {
    let record = encode_object(&ObjType::Blob, b"hello").unwrap();
    assert_ne!(record, format_object_content(&ObjType::Blob, b"hello"));
}

#[test]
fn two_matching_names_are_ambiguous() {
    let listing = names(&["63dbb7f3f6c7936432142d546034738fcdfdd7", "63dbb7aaaaaaaaaaaaaaaaaaaaaaaaaaaaaaaa"]);
    assert_eq!(find_file_by_name(&listing, "63dbb7"), Err(ObjError::AmbiguousPrefix));
    assert_eq!(resolve_in_directory(&Some(listing.clone()), "63dbb7"), Err(ObjError::AmbiguousPrefix));
    assert_eq!(resolve_in_directory(&Some(listing), "63dbb7f"), Ok(0));
}

#[test]
fn match_is_by_substring() {
    let listing = names(&["abc123", "def456"]);
    assert_eq!(find_file_by_name(&listing, "456"), Ok(Some(1)));
    assert_eq!(find_file_by_name(&listing, "c12"), Ok(Some(0)));
    assert_eq!(find_file_by_name(&listing, "zzz"), Ok(None));
    assert_eq!(find_file_by_name(&listing, ""), Err(ObjError::AmbiguousPrefix));
    assert_eq!(find_file_by_name(&names(&[]), ""), Ok(None));
    assert_eq!(resolve_in_directory(&Some(listing), "zzz"), Err(ObjError::ObjectNotFound));
}

#[test]
fn substring_search() {
    assert!(bytes_contain(b"hello", b"ll"));
    assert!(bytes_contain(b"hello", b""));
    assert!(bytes_contain(b"hello", b"hello"));
    assert!(!bytes_contain(b"hello", b"hello!"));
    assert!(!bytes_contain(b"", b"a"));
}

#[test]
fn prefix_too_short() {
    assert_eq!(split_prefix("a"), Err(ObjError::PrefixTooShort));
    assert_eq!(split_prefix(""), Err(ObjError::PrefixTooShort));
}

#[test]
fn missing_directory_is_not_found() {
    let (dir, rest) = split_prefix("zz").unwrap();
    assert_eq!(dir, "zz");
    assert_eq!(rest, "");
    assert_eq!(resolve_in_directory(&None, &rest), Err(ObjError::ObjectNotFound));
}

#[test]
fn prefix_split() {
    assert_eq!(split_prefix("6863dbb7"), Ok(("68".to_string(), "63dbb7".to_string())));
    assert_eq!(split_prefix("aé"), Err(ObjError::ObjectNotFound));
}

#[test]
fn blob_hello_scenario() {
    let oid = compute_oid(&ObjType::Blob, b"hello");
    assert_eq!(oid_hex(&oid), "b6fc4c620b67d95f953a5c1c1230aaab5db5a1b0");
    assert_eq!(format_object_content(&ObjType::Blob, b"hello"), b"blob 5\0hello");
    let (dir, file) = object_location(&oid);
    assert_eq!(dir, "b6");
    assert_eq!(file, "fc4c620b67d95f953a5c1c1230aaab5db5a1b0");
}

#[test]
fn commit_scenario() {
    let payload = b"Implementing version control system";
    assert_eq!(payload.len(), 35);
    let oid = compute_oid(&ObjType::Commit, payload);
    assert_eq!(oid_hex(&oid), "6863dbb7f3f6c7936432142d546034738fcdfdd7");
    let record = encode_object(&ObjType::Commit, payload).unwrap();
    let (kind, framed) = decode_object(&record).unwrap();
    assert_eq!(kind, ObjType::Commit);
    assert!(framed.starts_with(b"commit 35\0Implementing"));
}

fn run_locate(markers: &[bool], required: bool) -> Result<Option<usize>, ObjError> {
    let mut i = 0;
    loop {
        let at_root = i + 1 == markers.len();
        match locate_step(markers[i], at_root, required)? {
            LocateStep::Found => return Ok(Some(i)),
            LocateStep::NotFound => return Ok(None),
            LocateStep::Ascend => i += 1,
        }
    }
}

#[test]
fn locator_finds_marker_three_levels_up() {
    assert_eq!(run_locate(&[false, false, false, true, false], true), Ok(Some(3)));
}

#[test]
fn locator_without_marker() {
    assert_eq!(run_locate(&[false, false, false], false), Ok(None));
    assert_eq!(run_locate(&[false, false, false], true), Err(ObjError::NotARepository));
    assert_eq!(run_locate(&[true], true), Ok(Some(0)));
}

#[test]
fn header_errors() {
    assert_eq!(parse_object(b"blob5\0hello".to_vec()), Err(ObjError::CorruptObject));
    assert_eq!(parse_object(b"blob 5 hello".to_vec()), Err(ObjError::CorruptObject));
    assert_eq!(parse_object(b"blob\0 5hello".to_vec()), Err(ObjError::CorruptObject));
    assert_eq!(parse_object(b"blub 5\0hello".to_vec()), Err(ObjError::InvalidObjectKind));
    assert_eq!(parse_object(b"blob 6\0hello".to_vec()), Err(ObjError::CorruptObject));
    assert_eq!(parse_object(b"tree 5\0hello".to_vec()), Ok((ObjType::Tree, b"tree 5\0hello".to_vec())));
}

#[test]
fn garbage_record_is_corrupt() {
    assert_eq!(decode_object(b"not a zlib stream"), Err(ObjError::CorruptObject));
}

#[test]
fn decimal_lengths() {
    assert_eq!(decimal_digits(0), b"0");
    assert_eq!(decimal_digits(1234), b"1234");
    assert_eq!(decimal_digits(usize::MAX), usize::MAX.to_string().as_bytes());
}

#[test]
fn unresolvable_path_is_io_error() {
    let r = get_absolute_path(&PathBuf::from("/no/such/directory/anywhere/at/all"));
    assert_eq!(r, Err(ObjError::IoError));
}

#[test]
fn full_id_finds_its_file() {
    let oid = compute_oid(&ObjType::Blob, b"hello");
    let (dir, file) = object_location(&oid);
    let (sel, rest) = split_prefix(&oid_hex(&oid)).unwrap();
    assert_eq!(sel, dir);
    assert_eq!(rest, file);
    let listing = names(&["tmpfile", &file, "0000000000000000000000000000000000000a"]);
    assert_eq!(resolve_in_directory(&Some(listing), &rest), Ok(1));
}

#[test]
fn resolvable_path_is_absolute() {
    let p = get_absolute_path(&PathBuf::from(".")).unwrap();
    assert!(p.is_absolute());
}
