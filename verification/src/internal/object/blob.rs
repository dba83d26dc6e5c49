//! The blob: an object whose payload is the content of a file and nothing
//! else.

use crate::bytes::same_bytes;
use crate::errors::ConstructionError;
use crate::hash::{
    ascii_text, decimal, digit_str, lemma_decimal_digits, object_digest, push_decimal, SHA1,
    MAX_PAYLOAD_LEN,
};
use crate::internal::object::types::ObjectType;
use crate::internal::object::ObjectTrait;
use vstd::prelude::*;
use vstd::std_specs::cmp::PartialEqSpecImpl;
use vstd::string::{StringExecFns, StringSliceAdditionalSpecFns};

verus! {

/// A blob: the digest it goes by, and its content.
#[derive(Debug, Clone)]
pub struct Blob {
    pub id: SHA1,
    pub data: Vec<u8>,
}

impl PartialEq for Blob {
    /// Two blobs are equal when their contents are, whatever digests they
    /// carry.
    fn eq(&self, other: &Self) -> (same: bool) {
        same_bytes(self.data.as_slice(), other.data.as_slice())
    }
}

impl PartialEqSpecImpl for Blob {
    open spec fn obeys_eq_spec() -> bool {
        true
    }

    open spec fn eq_spec(&self, other: &Self) -> bool {
        self.data@ == other.data@
    }
}

impl Eq for Blob {

}

impl ObjectTrait for Blob {
    open spec fn payload(&self) -> Seq<u8> {
        self.data@
    }

    open spec fn identity(&self) -> Seq<u8> {
        self.id@
    }

    open spec fn valid(&self) -> bool {
        true
    }

    open spec fn kind() -> ObjectType {
        ObjectType::Blob
    }

    open spec fn parses(data: Seq<u8>) -> bool {
        true
    }

    proof fn lemma_payload_parses(&self) {
    }

    /// Wraps stored bytes as a blob. Every byte string is a blob, so this
    /// never fails.
    fn from_bytes(data: Vec<u8>, hash: SHA1) -> (made: Result<Self, ConstructionError>) {
        Ok(Blob { id: hash, data })
    }

    fn get_type(&self) -> (kind: ObjectType) {
        ObjectType::Blob
    }

    fn get_size(&self) -> (size: usize) {
        self.data.len()
    }

    fn to_data(&self) -> (data: Result<Vec<u8>, ConstructionError>) {
        Ok(self.data.clone())
    }
}

impl Blob {
    /// A description of the blob in two lines: its type and its size.
    pub fn to_string(&self) -> (text: String)
        ensures
            text@ == "Type: Blob\nSize: "@ + ascii_text(decimal(self.data@.len())) + "\n"@,
    {
        let mut digits: Vec<u8> = Vec::new();
        push_decimal(&mut digits, self.data.len());
        let ghost all = decimal(self.data@.len());
        proof {
            assert(digits@ =~= all);
            lemma_decimal_digits(self.data@.len());
        }
        let mut text: String = String::from_str("Type: Blob\nSize: ");
        let mut at: usize = 0;
        while at < digits.len()
            invariant
                at <= digits@.len(),
                digits@ == all,
                forall|i: int| 0 <= i < all.len() ==> 48 <= #[trigger] all[i] <= 57,
                text@ == "Type: Blob\nSize: "@ + ascii_text(all).subrange(0, at as int),
            decreases digits@.len() - at,
        {
            proof {
                assert(ascii_text(all).subrange(0, at + 1) =~= ascii_text(all).subrange(
                    0,
                    at as int,
                ).push(all[at as int] as char));
            }
            text.append(digit_str(digits[at] - 48));
            at += 1;
        }
        proof {
            assert(ascii_text(all).subrange(0, at as int) =~= ascii_text(all));
        }
        text.append("\n");
        text
    }

    /// Makes a blob of `content` and computes the digest it goes by, for a
    /// caller that does not know how long the content is: `None` where it
    /// holds more than `MAX_PAYLOAD_LEN` bytes.
    pub fn try_from_content(content: &str) -> (made: Option<Blob>)
        ensures
            match made {
                Some(blob) => content.spec_bytes().len() <= MAX_PAYLOAD_LEN && blob.data@
                    == content.spec_bytes() && blob.id@ == object_digest(
                    ObjectType::Blob,
                    content.spec_bytes(),
                ),
                None => content.spec_bytes().len() > MAX_PAYLOAD_LEN,
            },
    {
        if content.as_bytes().len() as u128 <= MAX_PAYLOAD_LEN as u128 {
            Some(Blob::from_content(content))
        } else {
            None
        }
    }

    /// Makes a blob of `content` and computes the digest it goes by. The
    /// content may hold `MAX_PAYLOAD_LEN` bytes at most, so that it can be
    /// hashed.
    pub fn from_content(content: &str) -> (blob: Blob)
        requires
            content.spec_bytes().len() <= MAX_PAYLOAD_LEN,
        ensures
            blob.data@ == content.spec_bytes(),
            blob.id@ == object_digest(ObjectType::Blob, content.spec_bytes()),
    {
        let bytes: &[u8] = content.as_bytes();
        let id: SHA1 = SHA1::from_type_and_data(ObjectType::Blob, bytes);
        Blob { id, data: vstd::slice::slice_to_vec(bytes) }
    }
}

} // verus!
