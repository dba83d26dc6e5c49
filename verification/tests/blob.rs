use storage_core::errors::ConstructionError;
use storage_core::hash::SHA1;
use storage_core::internal::object::blob::Blob;
use storage_core::internal::object::types::ObjectType;
use storage_core::internal::object::ObjectTrait;

#[test]
fn test_blob_from_content() {
    let content = "Hello, world!";
    let blob = Blob::from_content(content);
    assert_eq!(
        blob.id.to_string(),
        "5dd01c177f5d7d1be5346a5bc18a569a7410c2ef"
    );
}

#[test]
fn blob_from_content_keeps_the_content() {
    let blob = Blob::from_content("Hello, world!");
    assert_eq!(blob.data, b"Hello, world!".to_vec());
    assert_eq!(blob.get_size(), 13);
    assert_eq!(blob.get_type(), ObjectType::Blob);
}

#[test]
fn blob_of_empty_content() {
    let blob = Blob::from_content("");
    assert_eq!(blob.id.to_string(), "e69de29bb2d1d6434b8b29ae775ad8c2e48c5391");
    assert_eq!(blob.get_size(), 0);
    assert_eq!(blob.to_data(), Ok(Vec::new()));
}

#[test]
fn blob_digest_is_stable() {
    let first = Blob::from_content("the same content");
    let second = Blob::from_content("the same content");
    assert_eq!(first.id, second.id);
    let other = Blob::from_content("the same content.");
    assert_ne!(first.id, other.id);
}

#[test]
fn blob_from_bytes_trusts_the_digest() {
    let supplied = SHA1([7u8; 20]);
    let made: Result<Blob, ConstructionError> = Blob::from_bytes(b"Hello, world!".to_vec(), supplied);
    let blob = made.unwrap();
    assert_eq!(blob.id, supplied);
    assert_eq!(blob.data, b"Hello, world!".to_vec());
}

#[test]
fn blob_round_trip() {
    let blob = Blob::from_content("line one\nline two\n");
    let stored = blob.to_data().unwrap();
    let again = Blob::from_bytes(stored.clone(), blob.id).unwrap();
    assert_eq!(again.to_data().unwrap(), stored);
    assert_eq!(again.id, blob.id);
    assert_eq!(again.get_size(), stored.len());
}

#[test]
fn blob_round_trip_of_arbitrary_bytes() {
    let payload: Vec<u8> = vec![0, 255, 10, 0, 13, 128, 7];
    let blob = Blob::from_bytes(payload.clone(), SHA1::from_type_and_data(ObjectType::Blob, &payload)).unwrap();
    assert_eq!(blob.to_data().unwrap(), payload);
    let again = Blob::from_bytes(blob.to_data().unwrap(), blob.id).unwrap();
    assert_eq!(again.to_data().unwrap(), blob.to_data().unwrap());
}

#[test]
fn blobs_are_equal_by_content_not_by_digest() {
    let content = b"identical content".to_vec();
    let honest = Blob::from_content("identical content");
    let mislabelled = Blob::from_bytes(content.clone(), SHA1([0u8; 20])).unwrap();
    assert!(honest == mislabelled);
    assert_ne!(honest.id, mislabelled.id);
    let relabelled = Blob::from_bytes(content, honest.id).unwrap();
    assert!(honest == relabelled);
    assert_eq!(honest.id, relabelled.id);
    let different = Blob::from_bytes(b"other content".to_vec(), honest.id).unwrap();
    assert!(honest != different);
    assert_eq!(honest.id, different.id);
}

#[test]
fn blob_from_content_of_unknown_length() {
    let blob = Blob::try_from_content("Hello, world!").unwrap();
    assert_eq!(blob.id.to_string(), "5dd01c177f5d7d1be5346a5bc18a569a7410c2ef");
    assert!(blob == Blob::from_content("Hello, world!"));
}
