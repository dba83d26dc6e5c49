use storage_core::errors::ConstructionError;
use storage_core::hash::SHA1;
use storage_core::internal::object::blob::Blob;
use storage_core::internal::object::commit::Commit;
use storage_core::internal::object::tag::Tag;
use storage_core::internal::object::tree::{Tree, TreeItem, TreeItemMode};
use storage_core::internal::object::types::ObjectType;
use storage_core::internal::object::ObjectTrait;

fn framed(kind: &str, payload: &[u8]) -> SHA1 {
    let mut message = format!("{} {}\0", kind, payload.len()).into_bytes();
    message.extend_from_slice(payload);
    SHA1::new(&message)
}

#[test]
fn tree_from_items_computes_its_digest() {
    let empty = Tree::from_tree_items(Vec::new()).unwrap();
    assert_eq!(empty.id.to_string(), "4b825dc642cb6eb9a060e54bf8d69288fbee4904");
    let blob = Blob::from_content("Hello, world!");
    let items = vec![
        TreeItem { mode: TreeItemMode::Blob, id: blob.id, name: b"hello.txt".to_vec() },
        TreeItem { mode: TreeItemMode::Tree, id: empty.id, name: b"nothing".to_vec() },
    ];
    let tree = Tree::from_tree_items(items.clone()).unwrap();
    assert_eq!(tree.tree_items.len(), 2);
    assert_eq!(tree.tree_items[0].name, items[0].name);
    assert_eq!(tree.tree_items[1].id, empty.id);
    let stored = tree.to_data().unwrap();
    assert_eq!(tree.id, framed("tree", &stored));
    assert_eq!(tree.id, SHA1::from_type_and_data(ObjectType::Tree, &stored));
    let again = Tree::from_bytes(stored, tree.id).unwrap();
    assert!(again == tree);
}

#[test]
fn tree_from_items_refuses_a_name_with_a_zero_byte() {
    let items = vec![
        TreeItem { mode: TreeItemMode::Blob, id: SHA1([1; 20]), name: b"fine".to_vec() },
        TreeItem { mode: TreeItemMode::Blob, id: SHA1([1; 20]), name: b"not\0fine".to_vec() },
    ];
    assert!(
        Tree::from_tree_items(items) == Err(ConstructionError { object_type: ObjectType::Tree })
    );
}

#[test]
fn commit_new_computes_its_digest() {
    let tree = Tree::from_tree_items(Vec::new()).unwrap();
    let commit = Commit::new(
        tree.id,
        vec![SHA1([0xaa; 20])],
        b"A <a@example.org> 1 +0000".to_vec(),
        b"C <c@example.org> 2 +0000".to_vec(),
        b"first\n".to_vec(),
    )
    .unwrap();
    let stored = commit.to_data().unwrap();
    let expected = format!(
        "tree 4b825dc642cb6eb9a060e54bf8d69288fbee4904\nparent {}\nauthor A <a@example.org> 1 +0000\ncommitter C <c@example.org> 2 +0000\n\nfirst\n",
        "aa".repeat(20)
    );
    assert_eq!(stored, expected.into_bytes());
    assert_eq!(commit.id, framed("commit", &stored));
    assert_eq!(commit.tree_id, tree.id);
    assert_eq!(commit.parent_commit_ids, vec![SHA1([0xaa; 20])]);
    assert_eq!(commit.get_size(), stored.len());
    let again = Commit::from_bytes(stored, commit.id).unwrap();
    assert!(again == commit);
    assert_eq!(again.id, commit.id);
}

#[test]
fn commit_new_refuses_headers_of_several_lines() {
    let refused = Err(ConstructionError { object_type: ObjectType::Commit });
    let id = SHA1([0; 20]);
    assert!(Commit::new(id, Vec::new(), b"a\nb".to_vec(), b"c".to_vec(), Vec::new()) == refused);
    assert!(Commit::new(id, Vec::new(), b"a".to_vec(), b"c\n".to_vec(), Vec::new()) == refused);
    assert!(Commit::new(id, Vec::new(), b"a".to_vec(), b"c".to_vec(), b"\n\n".to_vec()).is_ok());
}

#[test]
fn tag_new_computes_its_digest() {
    let blob = Blob::from_content("Hello, world!");
    let tag = Tag::new(
        blob.id,
        ObjectType::Blob,
        b"greeting".to_vec(),
        b"T <t@example.org> 3 +0000".to_vec(),
        b"a greeting\n".to_vec(),
    )
    .unwrap();
    let stored = tag.to_data().unwrap();
    let expected = "object 5dd01c177f5d7d1be5346a5bc18a569a7410c2ef\ntype blob\ntag greeting\ntagger T <t@example.org> 3 +0000\n\na greeting\n";
    assert_eq!(stored, expected.as_bytes().to_vec());
    assert_eq!(tag.id, framed("tag", &stored));
    assert_eq!(tag.get_size(), stored.len());
    let again = Tag::from_bytes(stored, tag.id).unwrap();
    assert!(again == tag);
}

#[test]
fn tag_new_refuses_headers_of_several_lines() {
    let refused = Err(ConstructionError { object_type: ObjectType::Tag });
    let id = SHA1([0; 20]);
    assert!(Tag::new(id, ObjectType::Tree, b"v\n1".to_vec(), b"t".to_vec(), Vec::new()) == refused);
    assert!(Tag::new(id, ObjectType::Tree, b"v1".to_vec(), b"\nt".to_vec(), Vec::new()) == refused);
    assert!(Tag::new(id, ObjectType::Tree, Vec::new(), Vec::new(), Vec::new()).is_ok());
}

#[test]
fn blob_describes_itself() {
    assert_eq!(Blob::from_content("Hello, world!").to_string(), "Type: Blob\nSize: 13\n");
    assert_eq!(Blob::from_content("").to_string(), "Type: Blob\nSize: 0\n");
    let large = Blob::from_bytes(vec![0u8; 120_345], SHA1([0; 20])).unwrap();
    assert_eq!(large.to_string(), "Type: Blob\nSize: 120345\n");
}
