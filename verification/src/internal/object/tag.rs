//! The tag: an object whose payload names another object, says of what type
//! that object is, and carries a name, the tagger and a message.
//!
//! The payload is a run of header lines: `object`, `type`, `tag` and
//! `tagger`, one of each and in this order. An empty line ends the headers,
//! and all that follows it is the message.

use crate::bytes::{lacks_byte, same_bytes};
use crate::errors::ConstructionError;
use crate::hash::{hex, lemma_unhex_hex, object_digest, SHA1, MAX_PAYLOAD_LEN};
use crate::internal::object::header::{
    closing_bytes, field, field_bytes, id_field, lemma_field_complete, lemma_field_sound,
    lemma_id_field_complete, lemma_id_field_sound, lemma_parse_closing_complete,
    lemma_parse_closing_sound, one_line, parse_closing, read_closing, read_field, read_id_field,
    write_closing, write_field, Header,
};
use crate::internal::object::types::{lemma_type_of_tag, type_of, ObjectType};
use crate::internal::object::ObjectTrait;
use vstd::prelude::*;
use vstd::slice::slice_subrange;
use vstd::std_specs::cmp::PartialEqSpecImpl;

verus! {

/// A tag: the digest it goes by, the object it names and the type of that
/// object, its name, its tagger as it stands in the header line, and its
/// message.
#[derive(Clone, Debug)]
pub struct Tag {
    pub id: SHA1,
    pub object_hash: SHA1,
    pub object_type: ObjectType,
    pub tag_name: Vec<u8>,
    pub tagger: Vec<u8>,
    pub message: Vec<u8>,
}

/// What a tag says, as mathematics.
pub struct TagText {
    pub object_id: Seq<u8>,
    pub object_type: ObjectType,
    pub tag_name: Seq<u8>,
    pub tagger: Seq<u8>,
    pub message: Seq<u8>,
}

impl View for Tag {
    type V = TagText;

    open spec fn view(&self) -> TagText {
        TagText {
            object_id: self.object_hash@,
            object_type: self.object_type,
            tag_name: self.tag_name@,
            tagger: self.tagger@,
            message: self.message@,
        }
    }
}

/// Whether a tag can be written out and read back: the digest it names has
/// 20 bytes, and neither its name nor its tagger holds a line feed.
pub open spec fn tag_valid(tag: TagText) -> bool {
    &&& tag.object_id.len() == 20
    &&& one_line(tag.tag_name)
    &&& one_line(tag.tagger)
}

/// The bytes that stand for a tag.
pub open spec fn tag_bytes(tag: TagText) -> Seq<u8> {
    field_bytes(Header::Object.key(), hex(tag.object_id)) + (field_bytes(
        Header::Type.key(),
        tag.object_type.tag(),
    ) + closing_bytes(
        Header::Tag.key(),
        tag.tag_name,
        Header::Tagger.key(),
        tag.tagger,
        tag.message,
    ))
}

/// The type in the `type` line at the head of `data`, and the count of
/// bytes that the line occupies; `None` where there is no such line or it
/// names no type.
pub open spec fn type_field(data: Seq<u8>) -> Option<(ObjectType, nat)> {
    match field(data, Header::Type.key()) {
        None => None,
        Some((name, used)) => match type_of(name) {
            None => None,
            Some(kind) => Some((kind, used)),
        },
    }
}

/// What the tag that `data` stands for says, or `None` where `data` is not
/// a tag.
pub open spec fn parse_tag(data: Seq<u8>) -> Option<TagText> {
    match id_field(data, Header::Object.key()) {
        None => None,
        Some((object_id, object_used)) => {
            let after_object = data.skip(object_used as int);
            match type_field(after_object) {
                None => None,
                Some((object_type, type_used)) => match parse_closing(
                    after_object.skip(type_used as int),
                    Header::Tag.key(),
                    Header::Tagger.key(),
                ) {
                    None => None,
                    Some((tag_name, tagger, message)) => Some(
                        TagText { object_id, object_type, tag_name, tagger, message },
                    ),
                },
            }
        },
    }
}

/// The number of bytes that a valid tag is written as.
pub open spec fn tag_len(tag: TagText) -> nat {
    48 + 6 + tag.object_type.tag().len() + 5 + tag.tag_name.len() + 8 + tag.tagger.len() + 1
        + tag.message.len()
}

/// A `type` line that was read is written as exactly the bytes it was read
/// from.
pub proof fn lemma_type_field_sound(data: Seq<u8>)
    ensures
        type_field(data) matches Some((kind, used)) ==> used <= data.len() && field_bytes(
            Header::Type.key(),
            kind.tag(),
        ) == data.take(used as int),
{
    lemma_field_sound(data, Header::Type.key());
    match type_field(data) {
        None => {},
        Some((kind, used)) => {
            lemma_type_of_tag(kind);
        },
    }
}

/// A type is read back from the `type` line it was written as, whatever
/// follows it.
pub proof fn lemma_type_field_complete(kind: ObjectType, rest: Seq<u8>)
    ensures
        type_field(field_bytes(Header::Type.key(), kind.tag()) + rest) == Some(
            (kind, field_bytes(Header::Type.key(), kind.tag()).len()),
        ),
        field_bytes(Header::Type.key(), kind.tag()).len() == 6 + kind.tag().len(),
{
    lemma_type_of_tag(kind);
    lemma_field_complete(Header::Type.key(), kind.tag(), rest);
}

/// A tag that was read is valid and is written as exactly the bytes it was
/// read from.
pub proof fn lemma_parse_tag_sound(data: Seq<u8>)
    ensures
        parse_tag(data) matches Some(tag) ==> tag_valid(tag) && tag_bytes(tag) == data,
{
    match parse_tag(data) {
        None => {},
        Some(tag) => {
            let object_used = id_field(data, Header::Object.key()).unwrap().1;
            lemma_id_field_sound(data, Header::Object.key());
            let after_object = data.skip(object_used as int);
            let type_used = type_field(after_object).unwrap().1;
            lemma_type_field_sound(after_object);
            let after_type = after_object.skip(type_used as int);
            lemma_parse_closing_sound(after_type, Header::Tag.key(), Header::Tagger.key());
            assert(after_object =~= after_object.take(type_used as int) + after_type);
            assert(data =~= data.take(object_used as int) + after_object);
        },
    }
}

/// A tag that names a digest of 20 bytes is written as as many bytes as
/// `tag_len` says.
pub proof fn lemma_tag_bytes_len(tag: TagText)
    requires
        tag.object_id.len() == 20,
    ensures
        tag_bytes(tag).len() == tag_len(tag),
{
    lemma_unhex_hex(tag.object_id);
}

/// A valid tag is read back from the bytes it is written as.
pub proof fn lemma_parse_tag_complete(tag: TagText)
    requires
        tag_valid(tag),
    ensures
        parse_tag(tag_bytes(tag)) == Some(tag),
{
    let object_line = field_bytes(Header::Object.key(), hex(tag.object_id));
    let type_line = field_bytes(Header::Type.key(), tag.object_type.tag());
    let after_type = closing_bytes(
        Header::Tag.key(),
        tag.tag_name,
        Header::Tagger.key(),
        tag.tagger,
        tag.message,
    );
    let after_object = type_line + after_type;
    let data = object_line + after_object;
    lemma_parse_closing_complete(
        Header::Tag.key(),
        tag.tag_name,
        Header::Tagger.key(),
        tag.tagger,
        tag.message,
    );
    lemma_id_field_complete(Header::Object.key(), tag.object_id, after_object);
    assert(data.skip(object_line.len() as int) =~= after_object);
    lemma_type_field_complete(tag.object_type, after_type);
    assert(after_object.skip(type_line.len() as int) =~= after_type);
}

/// Two valid tags are written as the same bytes exactly when they say the
/// same: tags are equal by what they say exactly when they are equal by
/// their payloads.
pub proof fn lemma_tag_bytes_tell_apart(left: TagText, right: TagText)
    requires
        tag_valid(left),
        tag_valid(right),
    ensures
        tag_bytes(left) == tag_bytes(right) <==> left == right,
{
    lemma_parse_tag_complete(left);
    lemma_parse_tag_complete(right);
}

/// Reads the `type` line that starts at `at`, and tells where the next
/// line starts.
pub fn read_type_field(data: &[u8], at: usize) -> (found: Option<(ObjectType, usize)>)
    requires
        at <= data@.len(),
    ensures
        match type_field(data@.skip(at as int)) {
            None => found is None,
            Some((kind, used)) => found matches Some((object_type, next)) && object_type == kind
                && next == at + used && next <= data@.len(),
        },
{
    let end: usize = data.len();
    match read_field(data, at, Header::Type.to_bytes().as_slice()) {
        None => None,
        Some((from, to)) => match ObjectType::from_bytes(slice_subrange(data, from, to)) {
            None => None,
            Some(object_type) => Some((object_type, to + 1)),
        },
    }
}

impl Tag {
    /// Makes a tag of what it says and computes the digest it goes by. It
    /// fails where name or tagger holds a line feed, and where the tag is
    /// written as more bytes than can be held or hashed.
    pub fn new(
        object_hash: SHA1,
        object_type: ObjectType,
        tag_name: Vec<u8>,
        tagger: Vec<u8>,
        message: Vec<u8>,
    ) -> (made: Result<Tag, ConstructionError>)
        ensures
            made is Ok <==> one_line(tag_name@) && one_line(tagger@) && 68
                + object_type.tag().len() + tag_name@.len() + tagger@.len() + message@.len()
                <= MAX_PAYLOAD_LEN && 68 + object_type.tag().len() + tag_name@.len()
                + tagger@.len() + message@.len() <= usize::MAX,
            made matches Ok(tag) ==> tag.object_hash == object_hash && tag.object_type
                == object_type && tag.tag_name@ == tag_name@ && tag.tagger@ == tagger@
                && tag.message@ == message@ && tag.valid() && tag.id@ == object_digest(
                ObjectType::Tag,
                tag.payload(),
            ),
            made matches Err(error) ==> error.object_type == ObjectType::Tag,
    {
        if !lacks_byte(tag_name.as_slice(), 10) || !lacks_byte(tagger.as_slice(), 10) {
            return Err(ConstructionError { object_type: ObjectType::Tag });
        }
        let type_len: u128 = match object_type {
            ObjectType::Commit => 6,
            ObjectType::Tag => 3,
            _ => 4,
        };
        proof {
            assert(object_type.tag().len() == type_len);
        }
        let size: u128 = 68 + type_len + tag_name.len() as u128 + tagger.len() as u128
            + message.len() as u128;
        if size > MAX_PAYLOAD_LEN as u128 || size > usize::MAX as u128 {
            return Err(ConstructionError { object_type: ObjectType::Tag });
        }
        let unnamed = Tag {
            id: SHA1([0u8; 20]),
            object_hash,
            object_type,
            tag_name,
            tagger,
            message,
        };
        proof {
            assert(tag_valid(unnamed@) && tag_bytes(unnamed@).len() == size) by {
                assert(unnamed.object_hash@.len() == 20);
                lemma_tag_bytes_len(unnamed@);
            }
        }
        let id: SHA1 = match unnamed.to_data() {
            Ok(data) => SHA1::from_type_and_data(ObjectType::Tag, data.as_slice()),
            Err(error) => {
                return Err(error);
            },
        };
        Ok(
            Tag {
                id,
                object_hash: unnamed.object_hash,
                object_type: unnamed.object_type,
                tag_name: unnamed.tag_name,
                tagger: unnamed.tagger,
                message: unnamed.message,
            },
        )
    }
}

impl PartialEq for Tag {
    /// Two tags are equal when they say the same, whatever digests the tags
    /// themselves carry.
    fn eq(&self, other: &Self) -> (same: bool) {
        self.object_hash.same_as(&other.object_hash) && self.object_type == other.object_type
            && same_bytes(self.tag_name.as_slice(), other.tag_name.as_slice()) && same_bytes(
            self.tagger.as_slice(),
            other.tagger.as_slice(),
        ) && same_bytes(self.message.as_slice(), other.message.as_slice())
    }
}

impl PartialEqSpecImpl for Tag {
    open spec fn obeys_eq_spec() -> bool {
        true
    }

    open spec fn eq_spec(&self, other: &Self) -> bool {
        self@ == other@
    }
}

impl Eq for Tag {

}

impl ObjectTrait for Tag {
    open spec fn payload(&self) -> Seq<u8> {
        tag_bytes(self@)
    }

    open spec fn identity(&self) -> Seq<u8> {
        self.id@
    }

    open spec fn valid(&self) -> bool {
        tag_valid(self@)
    }

    open spec fn kind() -> ObjectType {
        ObjectType::Tag
    }

    open spec fn parses(data: Seq<u8>) -> bool {
        parse_tag(data) is Some
    }

    proof fn lemma_payload_parses(&self) {
        lemma_parse_tag_complete(self@);
    }

    /// Reads a tag out of stored bytes. It fails where the bytes do not
    /// start with an `object` line that holds a digest, where the `type`
    /// line names no type, where a header line is missing or out of place,
    /// and where no empty line follows the headers.
    fn from_bytes(data: Vec<u8>, hash: SHA1) -> (made: Result<Self, ConstructionError>) {
        let bytes: &[u8] = data.as_slice();
        proof {
            assert(data@.skip(0) =~= data@);
        }
        let (object_hash, after_object): (SHA1, usize) = match read_id_field(
            bytes,
            0,
            Header::Object.to_bytes().as_slice(),
        ) {
            Some(found) => found,
            None => {
                return Err(ConstructionError { object_type: ObjectType::Tag });
            },
        };
        let (object_type, after_type): (ObjectType, usize) = match read_type_field(
            bytes,
            after_object,
        ) {
            Some(found) => found,
            None => {
                return Err(ConstructionError { object_type: ObjectType::Tag });
            },
        };
        proof {
            assert(data@.skip(after_object as int).skip(after_type - after_object) =~= data@.skip(
                after_type as int,
            ));
        }
        let (tag_name, tagger, message): (Vec<u8>, Vec<u8>, Vec<u8>) = match read_closing(
            bytes,
            after_type,
            Header::Tag.to_bytes().as_slice(),
            Header::Tagger.to_bytes().as_slice(),
        ) {
            Some(found) => found,
            None => {
                return Err(ConstructionError { object_type: ObjectType::Tag });
            },
        };
        let tag = Tag { id: hash, object_hash, object_type, tag_name, tagger, message };
        proof {
            assert(parse_tag(data@) == Some(tag@));
            lemma_parse_tag_sound(data@);
        }
        Ok(tag)
    }

    fn get_type(&self) -> (kind: ObjectType) {
        ObjectType::Tag
    }

    fn get_size(&self) -> (size: usize) {
        proof {
            assert(self.object_hash@.len() == 20);
            lemma_tag_bytes_len(self@);
        }
        let type_len: usize = match self.object_type {
            ObjectType::Commit => 6,
            ObjectType::Tag => 3,
            _ => 4,
        };
        48 + 6 + type_len + 5 + self.tag_name.len() + 8 + self.tagger.len() + 1
            + self.message.len()
    }

    fn to_data(&self) -> (data: Result<Vec<u8>, ConstructionError>) {
        let mut out: Vec<u8> = Vec::new();
        write_field(
            &mut out,
            Header::Object.to_bytes().as_slice(),
            self.object_hash.to_hex().as_slice(),
        );
        write_field(
            &mut out,
            Header::Type.to_bytes().as_slice(),
            self.object_type.to_bytes().as_slice(),
        );
        write_closing(
            &mut out,
            Header::Tag.to_bytes().as_slice(),
            self.tag_name.as_slice(),
            Header::Tagger.to_bytes().as_slice(),
            self.tagger.as_slice(),
            self.message.as_slice(),
        );
        proof {
            assert(out@ =~= tag_bytes(self@));
        }
        Ok(out)
    }
}

} // verus!
