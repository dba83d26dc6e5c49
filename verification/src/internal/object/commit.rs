//! The commit: an object whose payload names a tree, the commits it follows,
//! who wrote and who recorded it, and a message.
//!
//! The payload is a run of header lines: one `tree` line, a `parent` line for
//! each commit it follows, one `author` line and one `committer` line. An
//! empty line ends the headers, and all that follows it is the message.

use crate::bytes::{lacks_byte, same_bytes};
use crate::errors::ConstructionError;
use crate::hash::{hex, lemma_unhex_hex, object_digest, SHA1, MAX_PAYLOAD_LEN};
use crate::internal::object::header::{
    closing_bytes, field_bytes, id_field, lemma_id_field_complete, lemma_id_field_sound,
    lemma_parse_closing_complete, lemma_parse_closing_sound, one_line, parse_closing,
    read_closing, read_id_field, starts_with, write_closing, write_field, Header,
};
use crate::internal::object::types::ObjectType;
use crate::internal::object::ObjectTrait;
use vstd::prelude::*;
use vstd::std_specs::cmp::PartialEqSpecImpl;

verus! {

/// A commit: the digest it goes by, the tree it records, the commits it
/// follows, its author and its committer as they stand in their header
/// lines, and its message.
#[derive(Clone, Debug)]
pub struct Commit {
    pub id: SHA1,
    pub tree_id: SHA1,
    pub parent_commit_ids: Vec<SHA1>,
    pub author: Vec<u8>,
    pub committer: Vec<u8>,
    pub message: Vec<u8>,
}

/// What a commit says, as mathematics.
pub struct CommitText {
    pub tree_id: Seq<u8>,
    pub parent_ids: Seq<Seq<u8>>,
    pub author: Seq<u8>,
    pub committer: Seq<u8>,
    pub message: Seq<u8>,
}

/// The bytes of each of a list of digests.
pub open spec fn ids(list: Seq<SHA1>) -> Seq<Seq<u8>> {
    Seq::new(list.len(), |k: int| list[k]@)
}

impl View for Commit {
    type V = CommitText;

    open spec fn view(&self) -> CommitText {
        CommitText {
            tree_id: self.tree_id@,
            parent_ids: ids(self.parent_commit_ids@),
            author: self.author@,
            committer: self.committer@,
            message: self.message@,
        }
    }
}

/// Whether every digest of the list has 20 bytes.
pub open spec fn all_digests(list: Seq<Seq<u8>>) -> bool {
    forall|k: int| 0 <= k < list.len() ==> (#[trigger] list[k]).len() == 20
}

/// Whether a commit can be written out and read back: its digests have 20
/// bytes each, and neither author nor committer holds a line feed.
pub open spec fn commit_valid(commit: CommitText) -> bool {
    &&& commit.tree_id.len() == 20
    &&& all_digests(commit.parent_ids)
    &&& one_line(commit.author)
    &&& one_line(commit.committer)
}

/// The `parent` lines for a list of digests.
pub open spec fn parents_bytes(parents: Seq<Seq<u8>>) -> Seq<u8>
    decreases parents.len(),
{
    if parents.len() == 0 {
        Seq::empty()
    } else {
        field_bytes(Header::Parent.key(), hex(parents[0])) + parents_bytes(parents.skip(1))
    }
}

/// The bytes that stand for a commit.
pub open spec fn commit_bytes(commit: CommitText) -> Seq<u8> {
    field_bytes(Header::Tree.key(), hex(commit.tree_id)) + (parents_bytes(commit.parent_ids)
        + closing_bytes(
        Header::Author.key(),
        commit.author,
        Header::Committer.key(),
        commit.committer,
        commit.message,
    ))
}

/// The digests of the `parent` lines at the head of `data`, and the count of
/// bytes that those lines occupy.
pub open spec fn parse_parents(data: Seq<u8>) -> (Seq<Seq<u8>>, nat)
    decreases data.len(),
{
    match id_field(data, Header::Parent.key()) {
        None => (Seq::empty(), 0),
        Some((id, used)) => {
            proof {
                lemma_id_field_sound(data, Header::Parent.key());
            }
            let more = parse_parents(data.skip(used as int));
            (seq![id] + more.0, used + more.1)
        },
    }
}

/// What the commit that `data` stands for says, or `None` where `data` is
/// not a commit.
pub open spec fn parse_commit(data: Seq<u8>) -> Option<CommitText> {
    match id_field(data, Header::Tree.key()) {
        None => None,
        Some((tree_id, tree_used)) => {
            let after_tree = data.skip(tree_used as int);
            let parents = parse_parents(after_tree);
            match parse_closing(
                after_tree.skip(parents.1 as int),
                Header::Author.key(),
                Header::Committer.key(),
            ) {
                None => None,
                Some((author, committer, message)) => Some(
                    CommitText { tree_id, parent_ids: parents.0, author, committer, message },
                ),
            }
        },
    }
}

/// The number of bytes that a valid commit is written as.
pub open spec fn commit_len(commit: CommitText) -> nat {
    46 + 48 * commit.parent_ids.len() + 8 + commit.author.len() + 11 + commit.committer.len() + 1
        + commit.message.len()
}

/// The `parent` lines grow at their end by the line of the digest that is
/// added.
pub proof fn lemma_parents_bytes_push(parents: Seq<Seq<u8>>, last: Seq<u8>)
    ensures
        parents_bytes(parents.push(last)) == parents_bytes(parents) + field_bytes(
            Header::Parent.key(),
            hex(last),
        ),
    decreases parents.len(),
{
    let longer = parents.push(last);
    let line = field_bytes(Header::Parent.key(), hex(last));
    if parents.len() == 0 {
        assert(longer.skip(1) =~= Seq::<Seq<u8>>::empty());
        assert(parents_bytes(longer.skip(1)) =~= Seq::<u8>::empty());
        assert(parents_bytes(longer) =~= parents_bytes(parents) + line);
    } else {
        assert(longer.skip(1) =~= parents.skip(1).push(last));
        lemma_parents_bytes_push(parents.skip(1), last);
        assert(parents_bytes(longer) =~= parents_bytes(parents) + line);
    }
}

/// Each `parent` line occupies 48 bytes.
pub proof fn lemma_parents_bytes_len(parents: Seq<Seq<u8>>)
    requires
        all_digests(parents),
    ensures
        parents_bytes(parents).len() == 48 * parents.len(),
    decreases parents.len(),
{
    if parents.len() > 0 {
        let rest = parents.skip(1);
        assert(all_digests(rest)) by {
            assert forall|k: int| 0 <= k < rest.len() implies (#[trigger] rest[k]).len() == 20 by {
                assert(rest[k] == parents[k + 1]);
            }
        }
        lemma_parents_bytes_len(rest);
        lemma_unhex_hex(parents[0]);
    }
}

/// The `parent` lines that were read hold digests of 20 bytes, are written
/// as exactly the bytes they were read from, and are followed by no further
/// `parent` line.
pub proof fn lemma_parse_parents_sound(data: Seq<u8>)
    ensures
        ({
            let parents = parse_parents(data);
            &&& parents.1 <= data.len()
            &&& all_digests(parents.0)
            &&& parents_bytes(parents.0) == data.take(parents.1 as int)
            &&& id_field(data.skip(parents.1 as int), Header::Parent.key()) is None
        }),
    decreases data.len(),
{
    let key = Header::Parent.key();
    match id_field(data, key) {
        None => {
            assert(data.skip(0) =~= data);
            assert(parents_bytes(Seq::<Seq<u8>>::empty()) =~= data.take(0));
        },
        Some((id, used)) => {
            lemma_id_field_sound(data, key);
            let rest = data.skip(used as int);
            lemma_parse_parents_sound(rest);
            let more = parse_parents(rest);
            let parents = seq![id] + more.0;
            assert(parents.skip(1) =~= more.0);
            assert(rest.skip(more.1 as int) =~= data.skip((used + more.1) as int));
            assert(data.take((used + more.1) as int) =~= data.take(used as int) + rest.take(
                more.1 as int,
            ));
            assert(all_digests(parents)) by {
                assert forall|k: int| 0 <= k < parents.len() implies (#[trigger] parents[k]).len()
                    == 20 by {
                    if k > 0 {
                        assert(parents[k] == more.0[k - 1]);
                    }
                }
            }
        },
    }
}

/// Digests of 20 bytes are read back from their `parent` lines, where what
/// follows the lines is no `parent` line itself.
pub proof fn lemma_parse_parents_complete(parents: Seq<Seq<u8>>, rest: Seq<u8>)
    requires
        all_digests(parents),
        !starts_with(rest, Header::Parent.key()),
    ensures
        parse_parents(parents_bytes(parents) + rest) == (parents, parents_bytes(parents).len()),
    decreases parents.len(),
{
    let key = Header::Parent.key();
    if parents.len() == 0 {
        assert(parents_bytes(parents) + rest =~= rest);
    } else {
        let first = parents[0];
        let others = parents.skip(1);
        let line = field_bytes(key, hex(first));
        let whole = parents_bytes(parents) + rest;
        assert(all_digests(others)) by {
            assert forall|k: int| 0 <= k < others.len() implies (#[trigger] others[k]).len()
                == 20 by {
                assert(others[k] == parents[k + 1]);
            }
        }
        assert(whole =~= line + (parents_bytes(others) + rest));
        lemma_id_field_complete(key, first, parents_bytes(others) + rest);
        assert(whole.skip(line.len() as int) =~= parents_bytes(others) + rest);
        lemma_parse_parents_complete(others, rest);
        assert(seq![first] + others =~= parents);
    }
}

/// A commit that was read is valid and is written as exactly the bytes it
/// was read from.
pub proof fn lemma_parse_commit_sound(data: Seq<u8>)
    ensures
        parse_commit(data) matches Some(commit) ==> commit_valid(commit) && commit_bytes(commit)
            == data,
{
    match parse_commit(data) {
        None => {},
        Some(commit) => {
            let tree_used = id_field(data, Header::Tree.key()).unwrap().1;
            lemma_id_field_sound(data, Header::Tree.key());
            let after_tree = data.skip(tree_used as int);
            let parents = parse_parents(after_tree);
            lemma_parse_parents_sound(after_tree);
            let after_parents = after_tree.skip(parents.1 as int);
            lemma_parse_closing_sound(
                after_parents,
                Header::Author.key(),
                Header::Committer.key(),
            );
            assert(after_tree =~= after_tree.take(parents.1 as int) + after_parents);
            assert(data =~= data.take(tree_used as int) + after_tree);
        },
    }
}

/// A commit whose digests have 20 bytes each is written as as many bytes as
/// `commit_len` says.
pub proof fn lemma_commit_bytes_len(commit: CommitText)
    requires
        commit.tree_id.len() == 20,
        all_digests(commit.parent_ids),
    ensures
        commit_bytes(commit).len() == commit_len(commit),
{
    lemma_unhex_hex(commit.tree_id);
    lemma_parents_bytes_len(commit.parent_ids);
}

/// The digests of a list of digests have 20 bytes each.
pub proof fn lemma_ids_are_digests(list: Seq<SHA1>)
    ensures
        all_digests(ids(list)),
{
    assert forall|k: int| 0 <= k < ids(list).len() implies (#[trigger] ids(list)[k]).len()
        == 20 by {
        assert(list[k]@.len() == 20);
    }
}

/// A valid commit is read back from the bytes it is written as.
pub proof fn lemma_parse_commit_complete(commit: CommitText)
    requires
        commit_valid(commit),
    ensures
        parse_commit(commit_bytes(commit)) == Some(commit),
{
    let tree_line = field_bytes(Header::Tree.key(), hex(commit.tree_id));
    let parent_lines = parents_bytes(commit.parent_ids);
    let after_parents = closing_bytes(
        Header::Author.key(),
        commit.author,
        Header::Committer.key(),
        commit.committer,
        commit.message,
    );
    let after_tree = parent_lines + after_parents;
    let data = tree_line + after_tree;
    lemma_parse_closing_complete(
        Header::Author.key(),
        commit.author,
        Header::Committer.key(),
        commit.committer,
        commit.message,
    );
    lemma_id_field_complete(Header::Tree.key(), commit.tree_id, after_tree);
    assert(data.skip(tree_line.len() as int) =~= after_tree);
    assert(!starts_with(after_parents, Header::Parent.key())) by {
        if starts_with(after_parents, Header::Parent.key()) {
            assert(after_parents.take(7)[0] == Header::Parent.key()[0]);
        }
    }
    lemma_parse_parents_complete(commit.parent_ids, after_parents);
    assert(after_tree.skip(parent_lines.len() as int) =~= after_parents);
}

/// Two valid commits are written as the same bytes exactly when they say
/// the same: commits are equal by what they say exactly when they are equal
/// by their payloads.
pub proof fn lemma_commit_bytes_tell_apart(left: CommitText, right: CommitText)
    requires
        commit_valid(left),
        commit_valid(right),
    ensures
        commit_bytes(left) == commit_bytes(right) <==> left == right,
{
    lemma_parse_commit_complete(left);
    lemma_parse_commit_complete(right);
}

/// Reads the `parent` lines that start at `start`, and tells where the line
/// behind them starts.
pub fn read_parents(data: &[u8], start: usize) -> (found: (Vec<SHA1>, usize))
    requires
        start <= data@.len(),
    ensures
        start <= found.1 <= data@.len(),
        parse_parents(data@.skip(start as int)) == (ids(found.0@), (found.1 - start) as nat),
{
    let key: Vec<u8> = Header::Parent.to_bytes();
    let mut parents: Vec<SHA1> = Vec::new();
    let mut at: usize = start;
    let mut more: bool = true;
    proof {
        let all = parse_parents(data@.skip(start as int));
        assert(ids(parents@) + all.0 =~= all.0);
    }
    while more
        invariant
            key@ == Header::Parent.key(),
            start <= at <= data@.len(),
            parse_parents(data@.skip(start as int)) == (
                ids(parents@) + parse_parents(data@.skip(at as int)).0,
                (at - start + parse_parents(data@.skip(at as int)).1) as nat,
            ),
            !more ==> id_field(data@.skip(at as int), Header::Parent.key()) is None,
        decreases data@.len() - at + (if more { 1nat } else { 0nat }),
    {
        let ghost left = data@.skip(at as int);
        let ghost done = ids(parents@);
        proof {
            lemma_id_field_sound(left, Header::Parent.key());
        }
        match read_id_field(data, at, key.as_slice()) {
            None => {
                more = false;
            },
            Some((id, next)) => {
                parents.push(id);
                proof {
                    assert(left.skip(next - at) =~= data@.skip(next as int));
                    let rest = parse_parents(data@.skip(next as int));
                    assert(ids(parents@) =~= done.push(id@));
                    assert(done + (seq![id@] + rest.0) =~= done.push(id@) + rest.0);
                }
                at = next;
            },
        }
    }
    proof {
        assert(ids(parents@) + Seq::<Seq<u8>>::empty() =~= ids(parents@));
    }
    (parents, at)
}

/// Tells whether two lists of digests hold the same digests in the same
/// order.
pub fn same_ids(left: &Vec<SHA1>, right: &Vec<SHA1>) -> (same: bool)
    ensures
        same == (ids(left@) == ids(right@)),
{
    if left.len() != right.len() {
        proof {
            assert(ids(left@).len() != ids(right@).len());
        }
        return false;
    }
    let mut at: usize = 0;
    while at < left.len()
        invariant
            at <= left@.len() == right@.len(),
            forall|k: int| 0 <= k < at ==> ids(left@)[k] == ids(right@)[k],
        decreases left@.len() - at,
    {
        if !left[at].same_as(&right[at]) {
            proof {
                assert(ids(left@)[at as int] != ids(right@)[at as int]);
            }
            return false;
        }
        at += 1;
    }
    proof {
        assert(ids(left@) =~= ids(right@));
    }
    true
}

impl Commit {
    /// Makes a commit of what it says and computes the digest it goes by.
    /// It fails where author or committer holds a line feed, and where the
    /// commit is written as more bytes than can be held or hashed.
    pub fn new(
        tree_id: SHA1,
        parent_commit_ids: Vec<SHA1>,
        author: Vec<u8>,
        committer: Vec<u8>,
        message: Vec<u8>,
    ) -> (made: Result<Commit, ConstructionError>)
        ensures
            made is Ok <==> one_line(author@) && one_line(committer@) && 66 + 48
                * parent_commit_ids@.len() + author@.len() + committer@.len() + message@.len()
                <= MAX_PAYLOAD_LEN && 66 + 48 * parent_commit_ids@.len() + author@.len()
                + committer@.len() + message@.len() <= usize::MAX,
            made matches Ok(commit) ==> commit.tree_id == tree_id && commit.parent_commit_ids@
                == parent_commit_ids@ && commit.author@ == author@ && commit.committer@
                == committer@ && commit.message@ == message@ && commit.valid() && commit.id@
                == object_digest(ObjectType::Commit, commit.payload()),
            made matches Err(error) ==> error.object_type == ObjectType::Commit,
    {
        if !lacks_byte(author.as_slice(), 10) || !lacks_byte(committer.as_slice(), 10) {
            return Err(ConstructionError { object_type: ObjectType::Commit });
        }
        let size: u128 = 66 + 48 * (parent_commit_ids.len() as u128) + author.len() as u128
            + committer.len() as u128 + message.len() as u128;
        if size > MAX_PAYLOAD_LEN as u128 || size > usize::MAX as u128 {
            return Err(ConstructionError { object_type: ObjectType::Commit });
        }
        let unnamed = Commit {
            id: SHA1([0u8; 20]),
            tree_id,
            parent_commit_ids,
            author,
            committer,
            message,
        };
        proof {
            assert(commit_valid(unnamed@) && commit_bytes(unnamed@).len() == size) by {
                assert(unnamed.tree_id@.len() == 20);
                lemma_ids_are_digests(unnamed.parent_commit_ids@);
                lemma_commit_bytes_len(unnamed@);
            }
        }
        let id: SHA1 = match unnamed.to_data() {
            Ok(data) => SHA1::from_type_and_data(ObjectType::Commit, data.as_slice()),
            Err(error) => {
                return Err(error);
            },
        };
        Ok(
            Commit {
                id,
                tree_id: unnamed.tree_id,
                parent_commit_ids: unnamed.parent_commit_ids,
                author: unnamed.author,
                committer: unnamed.committer,
                message: unnamed.message,
            },
        )
    }
}

impl PartialEq for Commit {
    /// Two commits are equal when they say the same, whatever digests the
    /// commits themselves carry.
    fn eq(&self, other: &Self) -> (same: bool) {
        self.tree_id.same_as(&other.tree_id) && same_ids(
            &self.parent_commit_ids,
            &other.parent_commit_ids,
        ) && same_bytes(self.author.as_slice(), other.author.as_slice()) && same_bytes(
            self.committer.as_slice(),
            other.committer.as_slice(),
        ) && same_bytes(self.message.as_slice(), other.message.as_slice())
    }
}

impl PartialEqSpecImpl for Commit {
    open spec fn obeys_eq_spec() -> bool {
        true
    }

    open spec fn eq_spec(&self, other: &Self) -> bool {
        self@ == other@
    }
}

impl Eq for Commit {

}

impl ObjectTrait for Commit {
    open spec fn payload(&self) -> Seq<u8> {
        commit_bytes(self@)
    }

    open spec fn identity(&self) -> Seq<u8> {
        self.id@
    }

    open spec fn valid(&self) -> bool {
        commit_valid(self@)
    }

    open spec fn kind() -> ObjectType {
        ObjectType::Commit
    }

    open spec fn parses(data: Seq<u8>) -> bool {
        parse_commit(data) is Some
    }

    proof fn lemma_payload_parses(&self) {
        lemma_parse_commit_complete(self@);
    }

    /// Reads a commit out of stored bytes. It fails where the bytes do not
    /// start with a `tree` line that holds a digest, where the `author` or
    /// the `committer` line is missing or out of place, and where no empty
    /// line follows the headers.
    fn from_bytes(data: Vec<u8>, hash: SHA1) -> (made: Result<Self, ConstructionError>) {
        let bytes: &[u8] = data.as_slice();
        let end: usize = bytes.len();
        proof {
            assert(data@.skip(0) =~= data@);
        }
        let (tree_id, after_tree): (SHA1, usize) = match read_id_field(
            bytes,
            0,
            Header::Tree.to_bytes().as_slice(),
        ) {
            Some(found) => found,
            None => {
                return Err(ConstructionError { object_type: ObjectType::Commit });
            },
        };
        let (parents, after_parents): (Vec<SHA1>, usize) = read_parents(bytes, after_tree);
        proof {
            assert(data@.skip(after_tree as int).skip(after_parents - after_tree) =~= data@.skip(
                after_parents as int,
            ));
        }
        let (author, committer, message): (Vec<u8>, Vec<u8>, Vec<u8>) = match read_closing(
            bytes,
            after_parents,
            Header::Author.to_bytes().as_slice(),
            Header::Committer.to_bytes().as_slice(),
        ) {
            Some(found) => found,
            None => {
                return Err(ConstructionError { object_type: ObjectType::Commit });
            },
        };
        let commit = Commit {
            id: hash,
            tree_id,
            parent_commit_ids: parents,
            author,
            committer,
            message,
        };
        proof {
            assert(parse_commit(data@) == Some(commit@));
            lemma_parse_commit_sound(data@);
        }
        Ok(commit)
    }

    fn get_type(&self) -> (kind: ObjectType) {
        ObjectType::Commit
    }

    fn get_size(&self) -> (size: usize) {
        proof {
            assert(self.tree_id@.len() == 20);
            lemma_ids_are_digests(self.parent_commit_ids@);
            lemma_commit_bytes_len(self@);
        }
        46 + 48 * self.parent_commit_ids.len() + 8 + self.author.len() + 11 + self.committer.len()
            + 1 + self.message.len()
    }

    fn to_data(&self) -> (data: Result<Vec<u8>, ConstructionError>) {
        let ghost parents = ids(self.parent_commit_ids@);
        let mut out: Vec<u8> = Vec::new();
        write_field(
            &mut out,
            Header::Tree.to_bytes().as_slice(),
            self.tree_id.to_hex().as_slice(),
        );
        let ghost tree_line = out@;
        let key: Vec<u8> = Header::Parent.to_bytes();
        let mut at: usize = 0;
        proof {
            assert(parents.take(0) =~= Seq::<Seq<u8>>::empty());
            assert(tree_line =~= field_bytes(Header::Tree.key(), hex(self.tree_id@)));
            assert(out@ =~= tree_line + parents_bytes(parents.take(0)));
        }
        while at < self.parent_commit_ids.len()
            invariant
                at <= self.parent_commit_ids@.len(),
                key@ == Header::Parent.key(),
                parents == ids(self.parent_commit_ids@),
                out@ == tree_line + parents_bytes(parents.take(at as int)),
            decreases self.parent_commit_ids@.len() - at,
        {
            let ghost before = out@;
            proof {
                assert(parents.take(at + 1) =~= parents.take(at as int).push(parents[at as int]));
                lemma_parents_bytes_push(parents.take(at as int), parents[at as int]);
            }
            write_field(&mut out, key.as_slice(), self.parent_commit_ids[at].to_hex().as_slice());
            proof {
                assert(out@ =~= tree_line + parents_bytes(parents.take(at + 1)));
            }
            at += 1;
        }
        proof {
            assert(parents.take(at as int) =~= parents);
        }
        write_closing(
            &mut out,
            Header::Author.to_bytes().as_slice(),
            self.author.as_slice(),
            Header::Committer.to_bytes().as_slice(),
            self.committer.as_slice(),
            self.message.as_slice(),
        );
        proof {
            assert(out@ =~= commit_bytes(self@));
        }
        Ok(out)
    }
}

} // verus!
