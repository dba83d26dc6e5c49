use storage_core::errors::ConstructionError;
use storage_core::hash::SHA1;
use storage_core::internal::object::tag::{read_type_field, Tag};
use storage_core::internal::object::types::ObjectType;
use storage_core::internal::object::ObjectTrait;

const TARGET: &str = "5dd01c177f5d7d1be5346a5bc18a569a7410c2ef";

fn payload(kind: &str) -> Vec<u8> {
    format!(
        "object {}\ntype {}\ntag v1.0\ntagger T Agger <tagger@example.org> 1700000000 +0000\n\nFirst release\n",
        TARGET, kind
    )
    .into_bytes()
}

fn refused() -> Result<Tag, ConstructionError> {
    Err(ConstructionError { object_type: ObjectType::Tag })
}

#[test]
fn tag_from_bytes_reads_the_headers() {
    let data = payload("commit");
    let tag = Tag::from_bytes(data.clone(), SHA1([4; 20])).unwrap();
    assert_eq!(tag.id, SHA1([4; 20]));
    assert_eq!(tag.object_hash, SHA1::from_hex(TARGET.as_bytes()).unwrap());
    assert_eq!(tag.object_type, ObjectType::Commit);
    assert_eq!(tag.tag_name, b"v1.0".to_vec());
    assert_eq!(tag.tagger, b"T Agger <tagger@example.org> 1700000000 +0000".to_vec());
    assert_eq!(tag.message, b"First release\n".to_vec());
    assert_eq!(tag.get_type(), ObjectType::Tag);
    assert_eq!(tag.get_size(), data.len());
    assert_eq!(tag.to_data(), Ok(data));
}

#[test]
fn tag_of_every_type_of_object() {
    for (name, kind) in [
        ("commit", ObjectType::Commit),
        ("tree", ObjectType::Tree),
        ("blob", ObjectType::Blob),
        ("tag", ObjectType::Tag),
    ] {
        let data = payload(name);
        let tag = Tag::from_bytes(data.clone(), SHA1([0; 20])).unwrap();
        assert_eq!(tag.object_type, kind);
        assert_eq!(tag.get_size(), data.len());
        assert_eq!(tag.to_data(), Ok(data));
    }
}

#[test]
fn tag_round_trip() {
    let tag = Tag {
        id: SHA1([9; 20]),
        object_hash: SHA1([0xab; 20]),
        object_type: ObjectType::Blob,
        tag_name: b"a name with spaces".to_vec(),
        tagger: Vec::new(),
        message: b"\n\nlines\n".to_vec(),
    };
    let stored = tag.to_data().unwrap();
    let expected = format!(
        "object {}\ntype blob\ntag a name with spaces\ntagger \n\n\n\nlines\n",
        "ab".repeat(20)
    );
    assert_eq!(stored, expected.into_bytes());
    assert_eq!(tag.get_size(), stored.len());
    let again = Tag::from_bytes(stored.clone(), tag.id).unwrap();
    assert!(again == tag);
    assert_eq!(again.to_data().unwrap(), stored);
}

#[test]
fn malformed_tags_are_refused() {
    let zero = SHA1([0; 20]);
    assert!(Tag::from_bytes(Vec::new(), zero) == refused());
    assert!(Tag::from_bytes(payload("branch"), zero) == refused());
    assert!(Tag::from_bytes(payload("Commit"), zero) == refused());
    assert!(Tag::from_bytes(payload(""), zero) == refused());
    let no_object = b"type commit\ntag v1\ntagger t\n\n".to_vec();
    assert!(Tag::from_bytes(no_object, zero) == refused());
    let short_object = b"object 5dd01c\ntype commit\ntag v1\ntagger t\n\n".to_vec();
    assert!(Tag::from_bytes(short_object, zero) == refused());
    let no_type = format!("object {}\ntag v1\ntagger t\n\n", TARGET);
    assert!(Tag::from_bytes(no_type.into_bytes(), zero) == refused());
    let no_name = format!("object {}\ntype commit\ntagger t\n\n", TARGET);
    assert!(Tag::from_bytes(no_name.into_bytes(), zero) == refused());
    let no_tagger = format!("object {}\ntype commit\ntag v1\n\n", TARGET);
    assert!(Tag::from_bytes(no_tagger.into_bytes(), zero) == refused());
    let no_empty_line = format!("object {}\ntype commit\ntag v1\ntagger t\n", TARGET);
    assert!(Tag::from_bytes(no_empty_line.into_bytes(), zero) == refused());
}

#[test]
fn truncated_tags_are_refused() {
    let data = payload("tree");
    let headers = data.len() - b"First release\n".len();
    for cut in 0..headers {
        assert!(Tag::from_bytes(data[..cut].to_vec(), SHA1([0; 20])) == refused());
    }
    for cut in headers..data.len() {
        assert!(Tag::from_bytes(data[..cut].to_vec(), SHA1([0; 20])).is_ok());
    }
}

#[test]
fn tags_are_equal_by_content_not_by_digest() {
    let first = Tag::from_bytes(payload("commit"), SHA1([1; 20])).unwrap();
    let second = Tag::from_bytes(payload("commit"), SHA1([2; 20])).unwrap();
    assert!(first == second);
    assert_ne!(first.id, second.id);
    let other = Tag::from_bytes(payload("tree"), SHA1([1; 20])).unwrap();
    assert!(first != other);
}

#[test]
fn reading_the_type_line() {
    let data = payload("blob");
    assert_eq!(read_type_field(&data, 48), Some((ObjectType::Blob, 58)));
    assert_eq!(read_type_field(&data, 0), None);
    assert_eq!(read_type_field(&data, data.len()), None);
}
