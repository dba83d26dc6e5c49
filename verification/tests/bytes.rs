use storage_core::bytes::{
    append_all, append_range, copy_range, find_byte, lacks_byte, same_bytes,
};
use storage_core::delta::index::slot_at;
use storage_core::internal::object::header::{
    read_closing, read_field, read_id_field, write_closing, write_field, Header,
};

#[test]
fn finding_a_byte() {
    let data = b"one two  three";
    assert_eq!(find_byte(data, 0, b' '), Some(3));
    assert_eq!(find_byte(data, 3, b' '), Some(3));
    assert_eq!(find_byte(data, 4, b' '), Some(7));
    assert_eq!(find_byte(data, 8, b' '), Some(8));
    assert_eq!(find_byte(data, 9, b' '), None);
    assert_eq!(find_byte(data, data.len(), b'e'), None);
    assert_eq!(find_byte(b"", 0, 0), None);
    assert!(lacks_byte(data, b'x'));
    assert!(!lacks_byte(data, b'e'));
    assert!(lacks_byte(b"", 0));
}

#[test]
fn copying_ranges() {
    let data = b"0123456789";
    let mut out = b"<".to_vec();
    append_range(&mut out, data, 2, 5);
    append_range(&mut out, data, 7, 7);
    append_all(&mut out, b">");
    assert_eq!(out, b"<234>".to_vec());
    assert_eq!(copy_range(data, 8, 10), b"89".to_vec());
    assert_eq!(copy_range(data, 0, 0), Vec::<u8>::new());
}

#[test]
fn comparing_byte_strings() {
    assert!(same_bytes(b"", b""));
    assert!(same_bytes(b"abc", b"abc"));
    assert!(!same_bytes(b"abc", b"abd"));
    assert!(!same_bytes(b"abc", b"ab"));
    assert!(!same_bytes(b"", b"a"));
}

#[test]
fn slots_of_windows() {
    assert_eq!(slot_at(&[0, 0, 0, 0], 0, 1000), 0);
    assert_eq!(slot_at(&[1, 0, 0, 0], 0, 1000), 889);
    assert_eq!(slot_at(&[9, 0, 1, 0, 0], 1, 1000), 633);
    assert_eq!(slot_at(b"abcd", 0, 7), 3);
    assert_eq!(slot_at(&[255, 255, 255, 255], 0, 65536), 51334);
    assert_eq!(slot_at(b"abcd", 0, 1), 0);
}

#[test]
fn header_keys() {
    assert_eq!(Header::Tree.to_bytes(), b"tree ".to_vec());
    assert_eq!(Header::Parent.to_bytes(), b"parent ".to_vec());
    assert_eq!(Header::Author.to_bytes(), b"author ".to_vec());
    assert_eq!(Header::Committer.to_bytes(), b"committer ".to_vec());
    assert_eq!(Header::Object.to_bytes(), b"object ".to_vec());
    assert_eq!(Header::Type.to_bytes(), b"type ".to_vec());
    assert_eq!(Header::Tag.to_bytes(), b"tag ".to_vec());
    assert_eq!(Header::Tagger.to_bytes(), b"tagger ".to_vec());
}

#[test]
fn header_lines() {
    let data = b"key one\nkey \nother";
    assert_eq!(read_field(data, 0, b"key "), Some((4, 7)));
    assert_eq!(read_field(data, 8, b"key "), Some((12, 12)));
    assert_eq!(read_field(data, 13, b"key "), None);
    assert_eq!(read_field(data, 13, b"other"), None);
    assert_eq!(read_field(data, 0, b"kez "), None);
    assert_eq!(read_field(data, data.len(), b"key "), None);
    let mut out = Vec::new();
    write_field(&mut out, b"key ", b"one");
    write_field(&mut out, b"key ", b"");
    assert_eq!(out, b"key one\nkey \n".to_vec());
}

#[test]
fn digest_lines() {
    let line = b"id 5dd01c177f5d7d1be5346a5bc18a569a7410c2ef\nrest";
    let (digest, next) = read_id_field(line, 0, b"id ").unwrap();
    assert_eq!(digest.to_string(), "5dd01c177f5d7d1be5346a5bc18a569a7410c2ef");
    assert_eq!(next, 44);
    assert!(read_id_field(b"id 5dd01c\n", 0, b"id ").is_none());
    assert!(read_id_field(b"id 5DD01C177F5D7D1BE5346A5BC18A569A7410C2EF\n", 0, b"id ").is_none());
    assert!(read_id_field(&line[..43], 0, b"id ").is_none());
}

#[test]
fn closing_lines() {
    let data = b"a one\nb two\n\nthe rest\n";
    assert_eq!(
        read_closing(data, 0, b"a ", b"b "),
        Some((b"one".to_vec(), b"two".to_vec(), b"the rest\n".to_vec()))
    );
    assert_eq!(read_closing(data, 0, b"b ", b"a "), None);
    assert_eq!(read_closing(b"a one\nb two\n", 0, b"a ", b"b "), None);
    assert_eq!(read_closing(b"a one\nb two\nx", 0, b"a ", b"b "), None);
    let mut out = b"> ".to_vec();
    write_closing(&mut out, b"a ", b"one", b"b ", b"two", b"the rest\n");
    assert_eq!(out, b"> a one\nb two\n\nthe rest\n".to_vec());
}
