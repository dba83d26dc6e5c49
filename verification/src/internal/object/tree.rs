//! The tree: an object whose payload lists the entries of a directory.
//!
//! Each entry is written as its mode in ASCII, a space, its name, a zero
//! byte, and the 20 bytes of the digest of the object it names. The entries
//! follow one another with nothing in between.

use crate::bytes::{
    append_all, copy_range, find, find_byte, lacks_byte, lemma_find, lemma_find_at, same_bytes,
};
use crate::errors::ConstructionError;
use crate::hash::{object_digest, SHA1, MAX_PAYLOAD_LEN};
use crate::internal::object::types::ObjectType;
use crate::internal::object::ObjectTrait;
use vstd::prelude::*;
use vstd::slice::slice_subrange;
use vstd::std_specs::cmp::PartialEqSpecImpl;

verus! {

/// What an entry of a tree is: a file, a file that can be run, a directory,
/// a commit of another repository, or a symbolic link.
#[derive(Clone, Copy, Debug, PartialEq, Eq, Structural, Hash)]
pub enum TreeItemMode {
    Blob,
    BlobExecutable,
    Tree,
    Commit,
    Link,
}

/// One entry of a tree.
#[derive(Clone, Debug)]
pub struct TreeItem {
    pub mode: TreeItemMode,
    pub id: SHA1,
    pub name: Vec<u8>,
}

/// One entry of a tree, as mathematics.
pub struct TreeEntry {
    pub mode: TreeItemMode,
    pub id: Seq<u8>,
    pub name: Seq<u8>,
}

/// A tree: the digest it goes by, and its entries in order.
#[derive(Clone, Debug)]
pub struct Tree {
    pub id: SHA1,
    pub tree_items: Vec<TreeItem>,
}

impl View for TreeItem {
    type V = TreeEntry;

    open spec fn view(&self) -> TreeEntry {
        TreeEntry { mode: self.mode, id: self.id@, name: self.name@ }
    }
}

/// The mode that is written as `tag`, if there is one.
pub open spec fn mode_of(tag: Seq<u8>) -> Option<TreeItemMode> {
    if tag == TreeItemMode::Blob.tag() {
        Some(TreeItemMode::Blob)
    } else if tag == TreeItemMode::BlobExecutable.tag() {
        Some(TreeItemMode::BlobExecutable)
    } else if tag == TreeItemMode::Tree.tag() {
        Some(TreeItemMode::Tree)
    } else if tag == TreeItemMode::Commit.tag() {
        Some(TreeItemMode::Commit)
    } else if tag == TreeItemMode::Link.tag() {
        Some(TreeItemMode::Link)
    } else {
        None
    }
}

/// Whether an entry can be written out and read back: its digest has 20
/// bytes and its name holds no zero byte.
pub open spec fn entry_valid(entry: TreeEntry) -> bool {
    &&& entry.id.len() == 20
    &&& forall|i: int| 0 <= i < entry.name.len() ==> entry.name[i] != 0
}

/// The bytes that stand for one entry.
pub open spec fn entry_bytes(entry: TreeEntry) -> Seq<u8> {
    entry.mode.tag() + seq![32u8] + entry.name + seq![0u8] + entry.id
}

/// The bytes that stand for a list of entries.
pub open spec fn tree_bytes(entries: Seq<TreeEntry>) -> Seq<u8>
    decreases entries.len(),
{
    if entries.len() == 0 {
        Seq::empty()
    } else {
        entry_bytes(entries[0]) + tree_bytes(entries.skip(1))
    }
}

/// The entry at the head of `data` and the count of bytes it occupies, or
/// `None` where `data` does not start with a whole entry.
pub open spec fn parse_entry(data: Seq<u8>) -> Option<(TreeEntry, nat)> {
    match find(data, 32) {
        None => None,
        Some(mode_len) => {
            let space = mode_len as int;
            match mode_of(data.take(space)) {
                None => None,
                Some(mode) => match find(data.skip(space + 1), 0) {
                    None => None,
                    Some(name_len) => {
                        let id_at = space + 1 + name_len + 1;
                        if id_at + 20 <= data.len() {
                            Some(
                                (
                                    TreeEntry {
                                        mode,
                                        id: data.subrange(id_at, id_at + 20),
                                        name: data.subrange(space + 1, space + 1 + name_len),
                                    },
                                    (id_at + 20) as nat,
                                ),
                            )
                        } else {
                            None
                        }
                    },
                },
            }
        },
    }
}

/// The entries that `data` lists, or `None` where `data` is not a run of
/// whole entries.
pub open spec fn parse_tree(data: Seq<u8>) -> Option<Seq<TreeEntry>>
    decreases data.len(),
{
    if data.len() == 0 {
        Some(Seq::empty())
    } else {
        match parse_entry(data) {
            None => None,
            Some((entry, used)) => {
                proof {
                    lemma_parse_entry_sound(data);
                }
                join(seq![entry], parse_tree(data.skip(used as int)))
            },
        }
    }
}

/// `front` followed by the entries of `rest`, if `rest` holds any.
pub open spec fn join(front: Seq<TreeEntry>, rest: Option<Seq<TreeEntry>>) -> Option<
    Seq<TreeEntry>,
> {
    match rest {
        Some(entries) => Some(front + entries),
        None => None,
    }
}

/// Every mode is read back from its own tag, and no tag holds a space.
pub proof fn lemma_mode_of_tag(mode: TreeItemMode)
    ensures
        mode_of(mode.tag()) == Some(mode),
        5 <= mode.tag().len() <= 6,
        forall|i: int| 0 <= i < mode.tag().len() ==> mode.tag()[i] != 32,
{
    let blob = TreeItemMode::Blob.tag();
    let executable = TreeItemMode::BlobExecutable.tag();
    let tree = TreeItemMode::Tree.tag();
    let commit = TreeItemMode::Commit.tag();
    let link = TreeItemMode::Link.tag();
    assert(blob[3] == 54 && executable[3] == 55 && commit[1] == 54 && link[1] == 50);
    assert(blob[1] == 48 && executable[1] == 48 && tree.len() == 5 && blob.len() == 6);
}

/// A parsed entry is valid, occupies more than 20 bytes and no more than
/// there are, and is written as exactly the bytes it was read from.
pub proof fn lemma_parse_entry_sound(data: Seq<u8>)
    ensures
        parse_entry(data) matches Some((entry, used)) ==> 20 < used <= data.len() && entry_valid(
            entry,
        ) && entry_bytes(entry) == data.take(used as int),
{
    match parse_entry(data) {
        None => {},
        Some((entry, used)) => {
            lemma_find(data, 32);
            let space = find(data, 32).unwrap() as int;
            lemma_find(data.skip(space + 1), 0);
            let name_len = find(data.skip(space + 1), 0).unwrap() as int;
            assert(entry.mode.tag() == data.take(space));
            assert forall|i: int| 0 <= i < entry.name.len() implies entry.name[i] != 0 by {
                assert(entry.name[i] == data.skip(space + 1)[i]);
            }
            assert(data.skip(space + 1)[name_len] == data[space + 1 + name_len]);
            assert(entry_bytes(entry) =~= data.take(used as int));
        },
    }
}

/// Parsing reads back the valid entry that was written, whatever follows
/// it.
pub proof fn lemma_parse_entry_complete(entry: TreeEntry, rest: Seq<u8>)
    requires
        entry_valid(entry),
    ensures
        parse_entry(entry_bytes(entry) + rest) == Some((entry, entry_bytes(entry).len())),
{
    let tag = entry.mode.tag();
    let whole = entry_bytes(entry) + rest;
    lemma_mode_of_tag(entry.mode);
    let space = tag.len() as int;
    assert(whole[space] == 32);
    assert forall|i: int| 0 <= i < space implies whole[i] != 32 by {
        assert(whole[i] == tag[i]);
    }
    lemma_find_at(whole, 32, space);
    assert(whole.take(space) =~= tag);
    let behind = whole.skip(space + 1);
    let name_len = entry.name.len() as int;
    assert(behind[name_len] == 0);
    assert forall|i: int| 0 <= i < name_len implies behind[i] != 0 by {
        assert(behind[i] == entry.name[i]);
    }
    lemma_find_at(behind, 0, name_len);
    let id_at = space + 1 + name_len + 1;
    assert(whole.subrange(id_at, id_at + 20) =~= entry.id);
    assert(whole.subrange(space + 1, space + 1 + name_len) =~= entry.name);
}

/// The bytes of a list of entries grow at their end by the bytes of the
/// entry that is added there.
pub proof fn lemma_tree_bytes_push(entries: Seq<TreeEntry>, last: TreeEntry)
    ensures
        tree_bytes(entries.push(last)) == tree_bytes(entries) + entry_bytes(last),
    decreases entries.len(),
{
    let longer = entries.push(last);
    if entries.len() == 0 {
        assert(longer.skip(1) =~= Seq::<TreeEntry>::empty());
        assert(tree_bytes(longer.skip(1)) =~= Seq::<u8>::empty());
        assert(tree_bytes(longer) =~= tree_bytes(entries) + entry_bytes(last));
    } else {
        assert(longer.skip(1) =~= entries.skip(1).push(last));
        lemma_tree_bytes_push(entries.skip(1), last);
        assert(tree_bytes(longer) =~= tree_bytes(entries) + entry_bytes(last));
    }
}

/// A list of entries is written as at least as many bytes as any of its
/// beginnings.
pub proof fn lemma_tree_bytes_grow(entries: Seq<TreeEntry>, count: int)
    requires
        0 <= count <= entries.len(),
    ensures
        tree_bytes(entries.take(count)).len() <= tree_bytes(entries).len(),
    decreases entries.len() - count,
{
    if count < entries.len() {
        lemma_tree_bytes_grow(entries, count + 1);
        assert(entries.take(count + 1) =~= entries.take(count).push(entries[count]));
        lemma_tree_bytes_push(entries.take(count), entries[count]);
    } else {
        assert(entries.take(count) =~= entries);
    }
}

/// What was parsed is valid and is written as exactly the bytes it was read
/// from.
pub proof fn lemma_parse_tree_sound(data: Seq<u8>)
    ensures
        parse_tree(data) matches Some(entries) ==> tree_bytes(entries) == data && forall|k: int|
            0 <= k < entries.len() ==> entry_valid(#[trigger] entries[k]),
    decreases data.len(),
{
    if data.len() == 0 {
        assert(tree_bytes(Seq::<TreeEntry>::empty()) =~= data);
    } else {
        match parse_entry(data) {
            None => {},
            Some((entry, used)) => {
                lemma_parse_entry_sound(data);
                lemma_parse_tree_sound(data.skip(used as int));
                match parse_tree(data.skip(used as int)) {
                    None => {},
                    Some(rest) => {
                        let entries = seq![entry] + rest;
                        assert(entries.skip(1) =~= rest);
                        assert(data =~= data.take(used as int) + data.skip(used as int));
                        assert forall|k: int| 0 <= k < entries.len() implies entry_valid(
                            #[trigger] entries[k],
                        ) by {
                            if k > 0 {
                                assert(entries[k] == rest[k - 1]);
                            }
                        }
                    },
                }
            },
        }
    }
}

/// Valid entries are read back from the bytes they are written as.
pub proof fn lemma_parse_tree_complete(entries: Seq<TreeEntry>)
    requires
        forall|k: int| 0 <= k < entries.len() ==> entry_valid(#[trigger] entries[k]),
    ensures
        parse_tree(tree_bytes(entries)) == Some(entries),
    decreases entries.len(),
{
    if entries.len() > 0 {
        let first = entries[0];
        let rest = entries.skip(1);
        let data = tree_bytes(entries);
        assert(forall|k: int| 0 <= k < rest.len() ==> entry_valid(#[trigger] rest[k])) by {
            assert forall|k: int| 0 <= k < rest.len() implies entry_valid(#[trigger] rest[k]) by {
                assert(rest[k] == entries[k + 1]);
            }
        }
        lemma_parse_entry_complete(first, tree_bytes(rest));
        lemma_parse_tree_complete(rest);
        assert(data.skip(entry_bytes(first).len() as int) =~= tree_bytes(rest));
        assert(seq![first] + rest =~= entries);
    }
}

/// Two lists of valid entries are written as the same bytes exactly when
/// they are the same list: trees are equal by their entries exactly when
/// they are equal by their payloads.
pub proof fn lemma_tree_bytes_tell_apart(left: Seq<TreeEntry>, right: Seq<TreeEntry>)
    requires
        all_valid(left),
        all_valid(right),
    ensures
        tree_bytes(left) == tree_bytes(right) <==> left == right,
{
    lemma_parse_tree_complete(left);
    lemma_parse_tree_complete(right);
}

impl TreeItemMode {
    /// The mode as it is written in a tree, in ASCII: `100644`, `100755`,
    /// `40000`, `160000` or `120000`.
    pub open spec fn tag(self) -> Seq<u8> {
        match self {
            TreeItemMode::Blob => seq![49u8, 48u8, 48u8, 54u8, 52u8, 52u8],
            TreeItemMode::BlobExecutable => seq![49u8, 48u8, 48u8, 55u8, 53u8, 53u8],
            TreeItemMode::Tree => seq![52u8, 48u8, 48u8, 48u8, 48u8],
            TreeItemMode::Commit => seq![49u8, 54u8, 48u8, 48u8, 48u8, 48u8],
            TreeItemMode::Link => seq![49u8, 50u8, 48u8, 48u8, 48u8, 48u8],
        }
    }

    /// The mode as it is written in a tree.
    pub fn to_bytes(&self) -> (tag: Vec<u8>)
        ensures
            tag@ == self.tag(),
    {
        let tag: Vec<u8> = match self {
            TreeItemMode::Blob => vec![49u8, 48u8, 48u8, 54u8, 52u8, 52u8],
            TreeItemMode::BlobExecutable => vec![49u8, 48u8, 48u8, 55u8, 53u8, 53u8],
            TreeItemMode::Tree => vec![52u8, 48u8, 48u8, 48u8, 48u8],
            TreeItemMode::Commit => vec![49u8, 54u8, 48u8, 48u8, 48u8, 48u8],
            TreeItemMode::Link => vec![49u8, 50u8, 48u8, 48u8, 48u8, 48u8],
        };
        proof {
            assert(tag@ =~= self.tag());
        }
        tag
    }

    /// The mode that is written as `tag`, if there is one.
    pub fn from_bytes(tag: &[u8]) -> (found: Option<TreeItemMode>)
        ensures
            found == mode_of(tag@),
    {
        if same_bytes(tag, TreeItemMode::Blob.to_bytes().as_slice()) {
            Some(TreeItemMode::Blob)
        } else if same_bytes(tag, TreeItemMode::BlobExecutable.to_bytes().as_slice()) {
            Some(TreeItemMode::BlobExecutable)
        } else if same_bytes(tag, TreeItemMode::Tree.to_bytes().as_slice()) {
            Some(TreeItemMode::Tree)
        } else if same_bytes(tag, TreeItemMode::Commit.to_bytes().as_slice()) {
            Some(TreeItemMode::Commit)
        } else if same_bytes(tag, TreeItemMode::Link.to_bytes().as_slice()) {
            Some(TreeItemMode::Link)
        } else {
            None
        }
    }
}

impl TreeItem {
    /// Tells whether two entries have the same mode, name and digest.
    pub fn same_as(&self, other: &TreeItem) -> (same: bool)
        ensures
            same == (self@ == other@),
    {
        let same: bool = self.mode == other.mode && same_bytes(
            self.name.as_slice(),
            other.name.as_slice(),
        ) && same_bytes(self.id.to_data().as_slice(), other.id.to_data().as_slice());
        same
    }

    /// Reads the entry that starts at `at`, and tells where the next one
    /// starts.
    pub fn read(data: &[u8], at: usize) -> (found: Option<(TreeItem, usize)>)
        requires
            at <= data@.len(),
        ensures
            match parse_entry(data@.skip(at as int)) {
                None => found is None,
                Some((entry, used)) => found matches Some((item, next)) && item@ == entry && next
                    == at + used,
            },
    {
        let ghost left = data@.skip(at as int);
        let end: usize = data.len();
        let space: usize = match find_byte(data, at, 32) {
            Some(space) => space,
            None => {
                return None;
            },
        };
        proof {
            assert(left.take(space - at) =~= data@.subrange(at as int, space as int));
        }
        let mode: TreeItemMode = match TreeItemMode::from_bytes(slice_subrange(data, at, space)) {
            Some(mode) => mode,
            None => {
                return None;
            },
        };
        proof {
            assert(left.skip(space - at + 1) =~= data@.skip(space + 1));
        }
        let zero: usize = match find_byte(data, space + 1, 0) {
            Some(zero) => zero,
            None => {
                return None;
            },
        };
        if end - zero <= 20 {
            return None;
        }
        let name: Vec<u8> = copy_range(data, space + 1, zero);
        let id: SHA1 = SHA1::from_bytes(slice_subrange(data, zero + 1, zero + 21));
        proof {
            let name_len = zero - space - 1;
            let id_at = space - at + 1 + name_len + 1;
            assert(left.subrange(space - at + 1, space - at + 1 + name_len) =~= name@);
            assert(left.subrange(id_at, id_at + 20) =~= id@);
        }
        Some((TreeItem { mode, id, name }, zero + 21))
    }
}

/// A list of entries, as mathematics.
pub open spec fn entries_of(items: Seq<TreeItem>) -> Seq<TreeEntry> {
    Seq::new(items.len(), |k: int| items[k]@)
}

/// Whether every entry of the list can be written out and read back.
pub open spec fn all_valid(entries: Seq<TreeEntry>) -> bool {
    forall|k: int| 0 <= k < entries.len() ==> entry_valid(#[trigger] entries[k])
}

impl Tree {
    /// The entries of this tree, in order.
    pub open spec fn entries(&self) -> Seq<TreeEntry> {
        entries_of(self.tree_items@)
    }

    /// Makes a tree of `tree_items` and computes the digest it goes by. It
    /// fails where a name holds a zero byte, and where the entries are
    /// written as more bytes than can be held or hashed.
    pub fn from_tree_items(tree_items: Vec<TreeItem>) -> (made: Result<Tree, ConstructionError>)
        ensures
            made is Ok <==> all_valid(entries_of(tree_items@)) && tree_bytes(
                entries_of(tree_items@),
            ).len() <= MAX_PAYLOAD_LEN && tree_bytes(entries_of(tree_items@)).len()
                <= usize::MAX,
            made matches Ok(tree) ==> tree.tree_items@ == tree_items@ && tree.valid() && tree.id@
                == object_digest(ObjectType::Tree, tree.payload()),
            made matches Err(error) ==> error.object_type == ObjectType::Tree,
    {
        let ghost entries = entries_of(tree_items@);
        let mut size: u128 = 0;
        let mut at: usize = 0;
        proof {
            assert(entries.take(0) =~= Seq::<TreeEntry>::empty());
        }
        while at < tree_items.len()
            invariant
                at <= tree_items@.len(),
                entries == entries_of(tree_items@),
                size == tree_bytes(entries.take(at as int)).len() <= MAX_PAYLOAD_LEN,
                size <= usize::MAX,
                forall|k: int| 0 <= k < at ==> entry_valid(#[trigger] entries[k]),
            decreases tree_items@.len() - at,
        {
            let item: &TreeItem = &tree_items[at];
            proof {
                assert(entries[at as int] == item@);
                assert(entries.take(at + 1) =~= entries.take(at as int).push(entries[at as int]));
                lemma_tree_bytes_push(entries.take(at as int), entries[at as int]);
                lemma_tree_bytes_grow(entries, at + 1);
                lemma_mode_of_tag(item.mode);
            }
            if !lacks_byte(item.name.as_slice(), 0) {
                proof {
                    assert(!entry_valid(entries[at as int]));
                }
                return Err(ConstructionError { object_type: ObjectType::Tree });
            }
            proof {
                assert(item.id@.len() == 20);
                assert(entry_valid(entries[at as int]));
            }
            let mode_len: u128 = match item.mode {
                TreeItemMode::Tree => 5,
                _ => 6,
            };
            size = size + mode_len + item.name.len() as u128 + 22;
            if size > MAX_PAYLOAD_LEN as u128 || size > usize::MAX as u128 {
                return Err(ConstructionError { object_type: ObjectType::Tree });
            }
            at += 1;
        }
        proof {
            assert(entries.take(at as int) =~= entries);
        }
        let unnamed = Tree { id: SHA1([0u8; 20]), tree_items };
        let id: SHA1 = match unnamed.to_data() {
            Ok(data) => SHA1::from_type_and_data(ObjectType::Tree, data.as_slice()),
            Err(error) => {
                return Err(error);
            },
        };
        Ok(Tree { id, tree_items: unnamed.tree_items })
    }
}

impl PartialEq for Tree {
    /// Two trees are equal when they list the same entries, whatever
    /// digests the trees themselves carry.
    fn eq(&self, other: &Self) -> (same: bool) {
        if self.tree_items.len() != other.tree_items.len() {
            proof {
                assert(self.entries().len() != other.entries().len());
            }
            return false;
        }
        let mut at: usize = 0;
        while at < self.tree_items.len()
            invariant
                at <= self.tree_items@.len() == other.tree_items@.len(),
                forall|k: int| 0 <= k < at ==> self.entries()[k] == other.entries()[k],
            decreases self.tree_items@.len() - at,
        {
            if !self.tree_items[at].same_as(&other.tree_items[at]) {
                proof {
                    assert(self.entries()[at as int] != other.entries()[at as int]);
                }
                return false;
            }
            at += 1;
        }
        proof {
            assert(self.entries() =~= other.entries());
        }
        true
    }
}

impl PartialEqSpecImpl for Tree {
    open spec fn obeys_eq_spec() -> bool {
        true
    }

    open spec fn eq_spec(&self, other: &Self) -> bool {
        self.entries() == other.entries()
    }
}

impl Eq for Tree {

}

impl ObjectTrait for Tree {
    open spec fn payload(&self) -> Seq<u8> {
        tree_bytes(self.entries())
    }

    open spec fn identity(&self) -> Seq<u8> {
        self.id@
    }

    open spec fn valid(&self) -> bool {
        all_valid(self.entries())
    }

    open spec fn kind() -> ObjectType {
        ObjectType::Tree
    }

    open spec fn parses(data: Seq<u8>) -> bool {
        parse_tree(data) is Some
    }

    proof fn lemma_payload_parses(&self) {
        lemma_parse_tree_complete(self.entries());
    }

    /// Reads the entries out of stored bytes. It fails where the bytes are
    /// not a run of whole entries: where a mode is unknown, the space or
    /// the zero byte of an entry is missing, or a digest is cut short.
    fn from_bytes(data: Vec<u8>, hash: SHA1) -> (made: Result<Self, ConstructionError>) {
        let mut tree = Tree { id: hash, tree_items: Vec::new() };
        let mut at: usize = 0;
        let bytes: &[u8] = data.as_slice();
        proof {
            assert(data@.skip(0) =~= data@);
            match parse_tree(data@) {
                Some(all) => {
                    assert(tree.entries() + all =~= all);
                },
                None => {},
            }
        }
        while at < bytes.len()
            invariant
                bytes@ == data@,
                at <= data@.len(),
                tree.id == hash,
                parse_tree(data@) == join(tree.entries(), parse_tree(data@.skip(at as int))),
            decreases data@.len() - at,
        {
            let ghost left = data@.skip(at as int);
            let ghost done = tree.entries();
            proof {
                lemma_parse_entry_sound(left);
            }
            match TreeItem::read(bytes, at) {
                None => {
                    return Err(ConstructionError { object_type: ObjectType::Tree });
                },
                Some((item, next)) => {
                    let ghost entry = item@;
                    tree.tree_items.push(item);
                    proof {
                        assert(tree.entries() =~= done.push(entry));
                        assert(left.skip(next - at) =~= data@.skip(next as int));
                        match parse_tree(data@.skip(next as int)) {
                            Some(rest) => {
                                assert(done + (seq![entry] + rest) =~= done.push(entry) + rest);
                            },
                            None => {},
                        }
                    }
                    at = next;
                },
            }
        }
        proof {
            assert(tree.entries() + Seq::<TreeEntry>::empty() =~= tree.entries());
            lemma_parse_tree_sound(data@);
        }
        Ok(tree)
    }

    fn get_type(&self) -> (kind: ObjectType) {
        ObjectType::Tree
    }

    fn get_size(&self) -> (size: usize) {
        let ghost entries = self.entries();
        let mut size: usize = 0;
        let mut at: usize = 0;
        proof {
            assert(entries.take(0) =~= Seq::<TreeEntry>::empty());
        }
        while at < self.tree_items.len()
            invariant
                at <= self.tree_items@.len(),
                entries == self.entries(),
                tree_bytes(entries).len() <= usize::MAX,
                size == tree_bytes(entries.take(at as int)).len(),
            decreases self.tree_items@.len() - at,
        {
            let item: &TreeItem = &self.tree_items[at];
            let mode_len: usize = match item.mode {
                TreeItemMode::Tree => 5,
                _ => 6,
            };
            proof {
                assert(entries.take(at + 1) =~= entries.take(at as int).push(entries[at as int]));
                lemma_tree_bytes_push(entries.take(at as int), entries[at as int]);
                lemma_tree_bytes_grow(entries, at + 1);
                assert(entries[at as int] == item@);
                assert(entry_bytes(item@).len() == mode_len + item.name@.len() + 22);
            }
            size = size + mode_len + item.name.len() + 22;
            at += 1;
        }
        proof {
            assert(entries.take(at as int) =~= entries);
        }
        size
    }

    fn to_data(&self) -> (data: Result<Vec<u8>, ConstructionError>) {
        let ghost entries = self.entries();
        let mut out: Vec<u8> = Vec::new();
        let mut at: usize = 0;
        proof {
            assert(entries.take(0) =~= Seq::<TreeEntry>::empty());
        }
        while at < self.tree_items.len()
            invariant
                at <= self.tree_items@.len(),
                entries == self.entries(),
                out@ == tree_bytes(entries.take(at as int)),
            decreases self.tree_items@.len() - at,
        {
            let item: &TreeItem = &self.tree_items[at];
            let ghost before = out@;
            proof {
                assert(entries.take(at + 1) =~= entries.take(at as int).push(entries[at as int]));
                lemma_tree_bytes_push(entries.take(at as int), entries[at as int]);
                assert(entries[at as int] == item@);
            }
            append_all(&mut out, item.mode.to_bytes().as_slice());
            out.push(32);
            append_all(&mut out, item.name.as_slice());
            out.push(0);
            append_all(&mut out, item.id.to_data().as_slice());
            proof {
                assert(out@ =~= before + entry_bytes(item@));
            }
            at += 1;
        }
        proof {
            assert(entries.take(at as int) =~= entries);
        }
        Ok(out)
    }
}

} // verus!
