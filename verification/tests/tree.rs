use storage_core::errors::ConstructionError;
use storage_core::hash::SHA1;
use storage_core::internal::object::tree::{Tree, TreeItem, TreeItemMode};
use storage_core::internal::object::types::ObjectType;
use storage_core::internal::object::ObjectTrait;

fn two_entries() -> Vec<u8> {
    let mut payload = b"100644 a.txt\0".to_vec();
    payload.extend_from_slice(&[0x11; 20]);
    payload.extend_from_slice(b"40000 my dir\0");
    payload.extend_from_slice(&[0x22; 20]);
    payload
}

fn malformed() -> Result<Tree, ConstructionError> {
    Err(ConstructionError { object_type: ObjectType::Tree })
}

#[test]
fn tree_from_bytes_reads_the_entries() {
    let payload = two_entries();
    let tree = Tree::from_bytes(payload.clone(), SHA1([9; 20])).unwrap();
    assert_eq!(tree.id, SHA1([9; 20]));
    assert_eq!(tree.tree_items.len(), 2);
    assert_eq!(tree.tree_items[0].mode, TreeItemMode::Blob);
    assert_eq!(tree.tree_items[0].name, b"a.txt".to_vec());
    assert_eq!(tree.tree_items[0].id, SHA1([0x11; 20]));
    assert_eq!(tree.tree_items[1].mode, TreeItemMode::Tree);
    assert_eq!(tree.tree_items[1].name, b"my dir".to_vec());
    assert_eq!(tree.tree_items[1].id, SHA1([0x22; 20]));
    assert_eq!(tree.get_type(), ObjectType::Tree);
    assert_eq!(tree.get_size(), payload.len());
    assert_eq!(tree.get_size(), 13 + 20 + 13 + 20);
    assert_eq!(tree.to_data(), Ok(payload));
}

#[test]
fn tree_round_trip() {
    let tree = Tree {
        id: SHA1([1; 20]),
        tree_items: vec![
            TreeItem { mode: TreeItemMode::BlobExecutable, id: SHA1([0; 20]), name: b"run.sh".to_vec() },
            TreeItem { mode: TreeItemMode::Link, id: SHA1([32; 20]), name: b"a link".to_vec() },
            TreeItem { mode: TreeItemMode::Commit, id: SHA1([255; 20]), name: b"sub".to_vec() },
            TreeItem { mode: TreeItemMode::Blob, id: SHA1([7; 20]), name: Vec::new() },
        ],
    };
    let stored = tree.to_data().unwrap();
    let mut expected = b"100755 run.sh\0".to_vec();
    expected.extend_from_slice(&[0; 20]);
    expected.extend_from_slice(b"120000 a link\0");
    expected.extend_from_slice(&[32; 20]);
    expected.extend_from_slice(b"160000 sub\0");
    expected.extend_from_slice(&[255; 20]);
    expected.extend_from_slice(b"100644 \0");
    expected.extend_from_slice(&[7; 20]);
    assert_eq!(stored, expected);
    let again = Tree::from_bytes(stored.clone(), tree.id).unwrap();
    assert_eq!(again.to_data().unwrap(), stored);
    assert!(again == tree);
    assert_eq!(again.get_size(), stored.len());
}

#[test]
fn empty_tree() {
    let tree = Tree::from_bytes(Vec::new(), SHA1([0; 20])).unwrap();
    assert_eq!(tree.tree_items.len(), 0);
    assert_eq!(tree.get_size(), 0);
    assert_eq!(tree.to_data(), Ok(Vec::new()));
}

#[test]
fn tree_with_a_truncated_entry_is_refused() {
    let payload = two_entries();
    for cut in 1..payload.len() {
        if cut == 33 {
            continue;
        }
        let made = Tree::from_bytes(payload[..cut].to_vec(), SHA1([0; 20]));
        assert!(made == malformed());
    }
    assert!(Tree::from_bytes(payload[..33].to_vec(), SHA1([0; 20])).is_ok());
}

#[test]
fn tree_with_an_unknown_mode_is_refused() {
    let mut payload = b"100666 a.txt\0".to_vec();
    payload.extend_from_slice(&[0x11; 20]);
    assert!(Tree::from_bytes(payload, SHA1([0; 20])) == malformed());
    let mut payload = b"040000 dir\0".to_vec();
    payload.extend_from_slice(&[0x11; 20]);
    assert!(Tree::from_bytes(payload, SHA1([0; 20])) == malformed());
    let mut payload = b" a.txt\0".to_vec();
    payload.extend_from_slice(&[0x11; 20]);
    assert!(Tree::from_bytes(payload, SHA1([0; 20])) == malformed());
}

#[test]
fn tree_without_separators_is_refused() {
    let mut payload = b"100644a.txt\0".to_vec();
    payload.extend_from_slice(&[0x11; 20]);
    assert!(Tree::from_bytes(payload, SHA1([0; 20])) == malformed());
    let mut payload = b"100644 a.txt".to_vec();
    payload.extend_from_slice(&[0x11; 20]);
    assert!(Tree::from_bytes(payload, SHA1([0; 20])) == malformed());
}

#[test]
fn trees_are_equal_by_entries_not_by_digest() {
    let first = Tree::from_bytes(two_entries(), SHA1([1; 20])).unwrap();
    let second = Tree::from_bytes(two_entries(), SHA1([2; 20])).unwrap();
    assert!(first == second);
    assert_ne!(first.id, second.id);
    let mut other = two_entries();
    other[7] = b'b';
    let third = Tree::from_bytes(other, SHA1([1; 20])).unwrap();
    assert!(first != third);
    let shorter = Tree::from_bytes(two_entries()[..33].to_vec(), SHA1([1; 20])).unwrap();
    assert!(first != shorter);
}

#[test]
fn tree_item_modes() {
    assert_eq!(TreeItemMode::Blob.to_bytes(), b"100644".to_vec());
    assert_eq!(TreeItemMode::BlobExecutable.to_bytes(), b"100755".to_vec());
    assert_eq!(TreeItemMode::Tree.to_bytes(), b"40000".to_vec());
    assert_eq!(TreeItemMode::Commit.to_bytes(), b"160000".to_vec());
    assert_eq!(TreeItemMode::Link.to_bytes(), b"120000".to_vec());
    assert_eq!(TreeItemMode::from_bytes(b"100644"), Some(TreeItemMode::Blob));
    assert_eq!(TreeItemMode::from_bytes(b"100755"), Some(TreeItemMode::BlobExecutable));
    assert_eq!(TreeItemMode::from_bytes(b"40000"), Some(TreeItemMode::Tree));
    assert_eq!(TreeItemMode::from_bytes(b"160000"), Some(TreeItemMode::Commit));
    assert_eq!(TreeItemMode::from_bytes(b"120000"), Some(TreeItemMode::Link));
    assert_eq!(TreeItemMode::from_bytes(b"100645"), None);
    assert_eq!(TreeItemMode::from_bytes(b""), None);
}

#[test]
fn reading_one_entry() {
    let payload = two_entries();
    let (item, next) = TreeItem::read(&payload, 33).unwrap();
    assert_eq!(next, payload.len());
    assert_eq!(item.name, b"my dir".to_vec());
    assert!(TreeItem::read(&payload, 34).is_none());
    assert!(TreeItem::read(&payload, payload.len()).is_none());
}
