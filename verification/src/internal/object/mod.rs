//! Objects: typed payloads, each known by the digest of its type and
//! content.

pub mod blob;
pub mod commit;
pub mod header;
pub mod tag;
pub mod tree;
pub mod types;

use crate::errors::ConstructionError;
use crate::hash::SHA1;
use crate::internal::object::types::ObjectType;
use vstd::prelude::*;

verus! {

/// What every kind of object can do: be rebuilt from stored bytes, tell its
/// type and size, and give its bytes back.
pub trait ObjectTrait: Sized {
    /// The bytes that this object is stored as.
    spec fn payload(&self) -> Seq<u8>;

    /// The digest that this object goes by.
    spec fn identity(&self) -> Seq<u8>;

    /// Whether the fields of this object can be written out and read back.
    spec fn valid(&self) -> bool;

    /// The type of the objects of this kind.
    spec fn kind() -> ObjectType;

    /// Whether `data` has the shape of an object of this kind.
    spec fn parses(data: Seq<u8>) -> bool;

    /// What a valid object is stored as can be read back as an object of
    /// its kind. With the contract of `from_bytes` this makes storing and
    /// reading back lossless: reading `to_data()` of a valid object under
    /// any digest succeeds, and the object read is stored as the same bytes.
    proof fn lemma_payload_parses(&self)
        requires
            self.valid(),
        ensures
            Self::parses(self.payload()),
    ;

    /// Rebuilds an object from stored bytes and the digest they were stored
    /// under. The digest is taken on trust and not computed again.
    fn from_bytes(data: Vec<u8>, hash: SHA1) -> (made: Result<Self, ConstructionError>)
        ensures
            made is Ok <==> Self::parses(data@),
            made matches Ok(object) ==> object.valid() && object.payload() == data@
                && object.identity() == hash@,
            made matches Err(error) ==> error.object_type == Self::kind(),
    ;

    /// The type of this object.
    fn get_type(&self) -> (kind: ObjectType)
        ensures
            kind == Self::kind(),
    ;

    /// The number of bytes that this object is stored as, where a `usize`
    /// can hold it.
    fn get_size(&self) -> (size: usize)
        requires
            self.payload().len() <= usize::MAX,
        ensures
            size == self.payload().len(),
    ;

    /// The bytes that this object is stored as. This never fails.
    fn to_data(&self) -> (data: Result<Vec<u8>, ConstructionError>)
        ensures
            data matches Ok(bytes) && bytes@ == self.payload(),
    ;
}

} // verus!
