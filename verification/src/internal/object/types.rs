//! The types of object.

use crate::bytes::same_bytes;
use vstd::prelude::*;

verus! {

/// The type of an object. There are exactly these four.
#[derive(Clone, Copy, Debug, PartialEq, Eq, Structural, Hash)]
pub enum ObjectType {
    Commit,
    Tree,
    Blob,
    Tag,
}

impl ObjectType {
    /// The name of the type as it stands in front of a payload that is
    /// hashed: `commit`, `tree`, `blob` or `tag`, in ASCII.
    pub open spec fn tag(self) -> Seq<u8> {
        match self {
            ObjectType::Commit => seq![99u8, 111u8, 109u8, 109u8, 105u8, 116u8],
            ObjectType::Tree => seq![116u8, 114u8, 101u8, 101u8],
            ObjectType::Blob => seq![98u8, 108u8, 111u8, 98u8],
            ObjectType::Tag => seq![116u8, 97u8, 103u8],
        }
    }

    /// The name of the type, in ASCII.
    pub fn to_bytes(&self) -> (name: Vec<u8>)
        ensures
            name@ == self.tag(),
    {
        let name: Vec<u8> = match self {
            ObjectType::Commit => vec![99u8, 111u8, 109u8, 109u8, 105u8, 116u8],
            ObjectType::Tree => vec![116u8, 114u8, 101u8, 101u8],
            ObjectType::Blob => vec![98u8, 108u8, 111u8, 98u8],
            ObjectType::Tag => vec![116u8, 97u8, 103u8],
        };
        proof {
            assert(name@ =~= self.tag());
        }
        name
    }

    /// The type that goes by `name`, if there is one.
    pub fn from_bytes(name: &[u8]) -> (found: Option<ObjectType>)
        ensures
            found == type_of(name@),
    {
        if same_bytes(name, ObjectType::Commit.to_bytes().as_slice()) {
            Some(ObjectType::Commit)
        } else if same_bytes(name, ObjectType::Tree.to_bytes().as_slice()) {
            Some(ObjectType::Tree)
        } else if same_bytes(name, ObjectType::Blob.to_bytes().as_slice()) {
            Some(ObjectType::Blob)
        } else if same_bytes(name, ObjectType::Tag.to_bytes().as_slice()) {
            Some(ObjectType::Tag)
        } else {
            None
        }
    }
}

/// The type that goes by `name`, if there is one.
pub open spec fn type_of(name: Seq<u8>) -> Option<ObjectType> {
    if name == ObjectType::Commit.tag() {
        Some(ObjectType::Commit)
    } else if name == ObjectType::Tree.tag() {
        Some(ObjectType::Tree)
    } else if name == ObjectType::Blob.tag() {
        Some(ObjectType::Blob)
    } else if name == ObjectType::Tag.tag() {
        Some(ObjectType::Tag)
    } else {
        None
    }
}

/// Every type is found again by its own name, a name is that of the type it
/// is found to be, and no name holds a line feed.
pub proof fn lemma_type_of_tag(kind: ObjectType)
    ensures
        type_of(kind.tag()) == Some(kind),
        forall|name: Seq<u8>| type_of(name) == Some(kind) ==> name == kind.tag(),
        forall|i: int| 0 <= i < kind.tag().len() ==> kind.tag()[i] != 10,
{
    assert(ObjectType::Commit.tag().len() == 6 && ObjectType::Tag.tag().len() == 3);
    assert(ObjectType::Tree.tag()[0] == 116 && ObjectType::Blob.tag()[0] == 98);
}

} // verus!
