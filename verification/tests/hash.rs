use storage_core::hash::{push_decimal, SHA1};
use storage_core::internal::object::types::ObjectType;

#[test]
fn sha1_of_the_empty_message() {
    assert_eq!(SHA1::new(b"").to_string(), "da39a3ee5e6b4b0d3255bfef95601890afd80709");
}

#[test]
fn sha1_of_abc() {
    assert_eq!(SHA1::new(b"abc").to_string(), "a9993e364706816aba3e25717850c26c9cd0d89d");
}

#[test]
fn digest_of_type_and_data_hashes_the_framed_payload() {
    let framed = b"blob 13\0Hello, world!";
    assert_eq!(SHA1::from_type_and_data(ObjectType::Blob, b"Hello, world!"), SHA1::new(framed));
    assert_eq!(
        SHA1::from_type_and_data(ObjectType::Blob, b"Hello, world!").to_string(),
        "5dd01c177f5d7d1be5346a5bc18a569a7410c2ef"
    );
}

#[test]
fn digest_depends_on_the_type() {
    let payload = b"";
    assert_eq!(
        SHA1::from_type_and_data(ObjectType::Tree, payload).to_string(),
        "4b825dc642cb6eb9a060e54bf8d69288fbee4904"
    );
    assert_eq!(
        SHA1::from_type_and_data(ObjectType::Blob, payload).to_string(),
        "e69de29bb2d1d6434b8b29ae775ad8c2e48c5391"
    );
    assert_eq!(SHA1::from_type_and_data(ObjectType::Commit, payload), SHA1::new(b"commit 0\0"));
    assert_eq!(SHA1::from_type_and_data(ObjectType::Tag, payload), SHA1::new(b"tag 0\0"));
}

#[test]
fn digest_is_the_same_on_every_call() {
    let payload: Vec<u8> = (0..1000u32).map(|n| (n % 251) as u8).collect();
    let first = SHA1::from_type_and_data(ObjectType::Blob, &payload);
    for _ in 0..10 {
        assert_eq!(SHA1::from_type_and_data(ObjectType::Blob, &payload), first);
    }
}

#[test]
fn digest_frames_long_lengths_in_decimal() {
    let payload = vec![b'x'; 1234];
    let mut framed = b"blob 1234\0".to_vec();
    framed.extend_from_slice(&payload);
    assert_eq!(SHA1::from_type_and_data(ObjectType::Blob, &payload), SHA1::new(&framed));
}

#[test]
fn decimal_digits() {
    let mut out = b"n=".to_vec();
    push_decimal(&mut out, 0);
    out.push(b',');
    push_decimal(&mut out, 9);
    out.push(b',');
    push_decimal(&mut out, 10);
    out.push(b',');
    push_decimal(&mut out, 1234567890);
    assert_eq!(out, b"n=0,9,10,1234567890".to_vec());
}

#[test]
fn hex_text_of_a_digest() {
    let mut bytes = [0u8; 20];
    bytes[0] = 0x01;
    bytes[1] = 0xab;
    bytes[2] = 0xf0;
    bytes[19] = 0x9c;
    assert_eq!(SHA1(bytes).to_string(), "01abf0000000000000000000000000000000009c");
}

#[test]
fn digest_from_bytes_and_back() {
    let bytes: Vec<u8> = (100..120u8).collect();
    let id = SHA1::from_bytes(&bytes);
    assert_eq!(id.0.to_vec(), bytes);
    assert_eq!(id.to_data(), bytes);
}

#[test]
fn object_type_names() {
    assert_eq!(ObjectType::Blob.to_bytes(), b"blob".to_vec());
    assert_eq!(ObjectType::Tree.to_bytes(), b"tree".to_vec());
    assert_eq!(ObjectType::Commit.to_bytes(), b"commit".to_vec());
    assert_eq!(ObjectType::Tag.to_bytes(), b"tag".to_vec());
    assert_eq!(ObjectType::from_bytes(b"blob"), Some(ObjectType::Blob));
    assert_eq!(ObjectType::from_bytes(b"tree"), Some(ObjectType::Tree));
    assert_eq!(ObjectType::from_bytes(b"commit"), Some(ObjectType::Commit));
    assert_eq!(ObjectType::from_bytes(b"tag"), Some(ObjectType::Tag));
    assert_eq!(ObjectType::from_bytes(b"tags"), None);
    assert_eq!(ObjectType::from_bytes(b"bloc"), None);
    assert_eq!(ObjectType::from_bytes(b""), None);
}

#[test]
fn digest_without_a_known_length() {
    assert_eq!(
        SHA1::try_from_type_and_data(ObjectType::Blob, b"Hello, world!"),
        Some(SHA1::from_type_and_data(ObjectType::Blob, b"Hello, world!"))
    );
    assert_eq!(
        SHA1::try_from_type_and_data(ObjectType::Tree, b"").unwrap().to_string(),
        "4b825dc642cb6eb9a060e54bf8d69288fbee4904"
    );
}
