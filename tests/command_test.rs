use zgit::utlis::ObjType;
use zgit::{compute_oid, decode_object, encode_object, format_object_content, object_location};

#[test]
fn test_compute_oid() {
    let oid = compute_oid(&ObjType::Blob, b"hello");
    assert_eq!(hex::encode(oid), "b6fc4c620b67d95f953a5c1c1230aaab5db5a1b0")
}

#[test]
fn test_format_object_content() {
    let some = format_object_content(&ObjType::Blob, b"hello");
    assert_eq!(some, b"blob 5\0hello")
}

#[test]
fn test_store_object() {
    let source = b"Implementing version control system";
    let oid = compute_oid(&ObjType::Commit, source);

    let (dir_name, file_name) = object_location(&oid);
    assert_eq!(dir_name, "68");
    assert_eq!(file_name, "63dbb7f3f6c7936432142d546034738fcdfdd7");
    assert_eq!(format!("{}{}", dir_name, file_name), hex::encode(oid));

    let record = encode_object(&ObjType::Commit, source).unwrap();
    let (obj_type, file_content) = decode_object(&record).unwrap();

    assert_eq!(obj_type, ObjType::Commit);
    assert_eq!(
        String::from_utf8(file_content).unwrap(),
        "commit 35\0Implementing version control system"
    );
}

#[test]
fn some_read_object() {
    let record = encode_object(&ObjType::Tag, b"v1").unwrap();
    let (obj_type, content) = decode_object(&record).unwrap();
    assert_eq!(obj_type, ObjType::Tag);
    assert_eq!(content, b"tag 2\0v1");
}
