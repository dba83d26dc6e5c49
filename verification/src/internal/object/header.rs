//! The header lines of commits and tags.
//!
//! A header line is a key that ends in a space, the content, and a line
//! feed. The content holds no line feed. Where the content is a digest, it
//! is written as 40 lower-case hexadecimal digits.

use crate::bytes::{
    append_all, copy_range, find, find_byte, lemma_find, lemma_find_at, same_bytes,
};
use crate::hash::{hex, hex_value, is_hex, lemma_hex_unhex, lemma_unhex_hex, unhex, SHA1};
use vstd::prelude::*;
use vstd::slice::slice_subrange;

verus! {

/// The keys of the header lines.
#[derive(Clone, Copy, Debug, PartialEq, Eq, Structural)]
pub enum Header {
    Tree,
    Parent,
    Author,
    Committer,
    Object,
    Type,
    Tag,
    Tagger,
}

impl Header {
    /// The key as it is written, in ASCII, with the space that ends it.
    pub open spec fn key(self) -> Seq<u8> {
        match self {
            Header::Tree => seq![116u8, 114u8, 101u8, 101u8, 32u8],
            Header::Parent => seq![112u8, 97u8, 114u8, 101u8, 110u8, 116u8, 32u8],
            Header::Author => seq![97u8, 117u8, 116u8, 104u8, 111u8, 114u8, 32u8],
            Header::Committer => seq![
                99u8,
                111u8,
                109u8,
                109u8,
                105u8,
                116u8,
                116u8,
                101u8,
                114u8,
                32u8,
            ],
            Header::Object => seq![111u8, 98u8, 106u8, 101u8, 99u8, 116u8, 32u8],
            Header::Type => seq![116u8, 121u8, 112u8, 101u8, 32u8],
            Header::Tag => seq![116u8, 97u8, 103u8, 32u8],
            Header::Tagger => seq![116u8, 97u8, 103u8, 103u8, 101u8, 114u8, 32u8],
        }
    }

    /// The key as it is written.
    pub fn to_bytes(&self) -> (key: Vec<u8>)
        ensures
            key@ == self.key(),
    {
        let key: Vec<u8> = match self {
            Header::Tree => vec![116u8, 114u8, 101u8, 101u8, 32u8],
            Header::Parent => vec![112u8, 97u8, 114u8, 101u8, 110u8, 116u8, 32u8],
            Header::Author => vec![97u8, 117u8, 116u8, 104u8, 111u8, 114u8, 32u8],
            Header::Committer => vec![
                99u8,
                111u8,
                109u8,
                109u8,
                105u8,
                116u8,
                116u8,
                101u8,
                114u8,
                32u8,
            ],
            Header::Object => vec![111u8, 98u8, 106u8, 101u8, 99u8, 116u8, 32u8],
            Header::Type => vec![116u8, 121u8, 112u8, 101u8, 32u8],
            Header::Tag => vec![116u8, 97u8, 103u8, 32u8],
            Header::Tagger => vec![116u8, 97u8, 103u8, 103u8, 101u8, 114u8, 32u8],
        };
        proof {
            assert(key@ =~= self.key());
        }
        key
    }
}

/// Whether `data` begins with `key`.
pub open spec fn starts_with(data: Seq<u8>, key: Seq<u8>) -> bool {
    key.len() <= data.len() && data.take(key.len() as int) == key
}

/// Whether `text` holds no line feed.
pub open spec fn one_line(text: Seq<u8>) -> bool {
    forall|i: int| 0 <= i < text.len() ==> text[i] != 10
}

/// The bytes of the header line with `key` and `content`.
pub open spec fn field_bytes(key: Seq<u8>, content: Seq<u8>) -> Seq<u8> {
    key + content + seq![10u8]
}

/// The content of the header line with `key` at the head of `data`, and the
/// count of bytes that the line occupies; `None` where `data` does not begin
/// with `key` or holds no line feed behind it.
pub open spec fn field(data: Seq<u8>, key: Seq<u8>) -> Option<(Seq<u8>, nat)> {
    if starts_with(data, key) {
        let from = key.len() as int;
        match find(data.skip(from), 10) {
            Some(len) => Some((data.subrange(from, from + len), (from + len + 1) as nat)),
            None => None,
        }
    } else {
        None
    }
}

/// The digest in the header line with `key` at the head of `data`, and the
/// count of bytes that the line occupies; `None` where there is no such
/// line or its content is not 40 lower-case hexadecimal digits.
pub open spec fn id_field(data: Seq<u8>, key: Seq<u8>) -> Option<(Seq<u8>, nat)> {
    match field(data, key) {
        Some((text, used)) => if text.len() == 40 && is_hex(text) {
            Some((unhex(text), used))
        } else {
            None
        },
        None => None,
    }
}

/// A header line that was read holds no line feed in its content, occupies
/// more bytes than its key and no more than there are, and is written as
/// exactly the bytes it was read from.
pub proof fn lemma_field_sound(data: Seq<u8>, key: Seq<u8>)
    ensures
        field(data, key) matches Some((content, used)) ==> key.len() < used <= data.len()
            && one_line(content) && used == key.len() + content.len() + 1 && field_bytes(
            key,
            content,
        ) == data.take(used as int),
{
    match field(data, key) {
        None => {},
        Some((content, used)) => {
            let from = key.len() as int;
            lemma_find(data.skip(from), 10);
            let len = find(data.skip(from), 10).unwrap() as int;
            assert forall|i: int| 0 <= i < content.len() implies content[i] != 10 by {
                assert(content[i] == data.skip(from)[i]);
            }
            assert(data.skip(from)[len] == data[from + len]);
            assert(field_bytes(key, content) =~= data.take(used as int)) by {
                assert(data.take(from) == key);
                assert forall|i: int| 0 <= i < used implies field_bytes(key, content)[i]
                    == data.take(used as int)[i] by {
                    if i < from {
                        assert(data.take(from)[i] == data[i]);
                    }
                }
            }
        },
    }
}

/// A header line with one-line content is read back as it was written,
/// whatever follows it.
pub proof fn lemma_field_complete(key: Seq<u8>, content: Seq<u8>, rest: Seq<u8>)
    requires
        one_line(content),
    ensures
        field(field_bytes(key, content) + rest, key) == Some(
            (content, field_bytes(key, content).len()),
        ),
{
    let whole = field_bytes(key, content) + rest;
    let from = key.len() as int;
    assert(whole.take(from) =~= key);
    let behind = whole.skip(from);
    let len = content.len() as int;
    assert(behind[len] == 10);
    assert forall|i: int| 0 <= i < len implies behind[i] != 10 by {
        assert(behind[i] == content[i]);
    }
    lemma_find_at(behind, 10, len);
    assert(whole.subrange(from, from + len) =~= content);
}

/// A digest line that was read holds 20 bytes and is written as exactly the
/// bytes it was read from.
pub proof fn lemma_id_field_sound(data: Seq<u8>, key: Seq<u8>)
    ensures
        id_field(data, key) matches Some((id, used)) ==> id.len() == 20 && key.len() < used
            <= data.len() && used == key.len() + 41 && field_bytes(key, hex(id)) == data.take(
            used as int,
        ),
{
    lemma_field_sound(data, key);
    match id_field(data, key) {
        None => {},
        Some((id, used)) => {
            let text = field(data, key).unwrap().0;
            lemma_hex_unhex(text);
        },
    }
}

/// A digest of 20 bytes is read back from the line it was written as,
/// whatever follows it.
pub proof fn lemma_id_field_complete(key: Seq<u8>, id: Seq<u8>, rest: Seq<u8>)
    requires
        id.len() == 20,
    ensures
        id_field(field_bytes(key, hex(id)) + rest, key) == Some(
            (id, field_bytes(key, hex(id)).len()),
        ),
        field_bytes(key, hex(id)).len() == key.len() + 41,
{
    lemma_unhex_hex(id);
    let text = hex(id);
    assert forall|i: int| 0 <= i < text.len() implies text[i] != 10 by {
        assert(hex_value(text[i]) is Some);
    }
    lemma_field_complete(key, text, rest);
}

/// The bytes of two header lines, an empty line and a message.
pub open spec fn closing_bytes(
    first: Seq<u8>,
    one: Seq<u8>,
    second: Seq<u8>,
    other: Seq<u8>,
    message: Seq<u8>,
) -> Seq<u8> {
    field_bytes(first, one) + (field_bytes(second, other) + (seq![10u8] + message))
}

/// The contents of the header lines with the keys `first` and `second` that
/// `data` begins with, and the message behind the empty line that follows
/// them; `None` where `data` is not made up so.
pub open spec fn parse_closing(data: Seq<u8>, first: Seq<u8>, second: Seq<u8>) -> Option<
    (Seq<u8>, Seq<u8>, Seq<u8>),
> {
    match field(data, first) {
        None => None,
        Some((one, one_used)) => {
            let after_one = data.skip(one_used as int);
            match field(after_one, second) {
                None => None,
                Some((other, other_used)) => {
                    let rest = after_one.skip(other_used as int);
                    if rest.len() > 0 && rest[0] == 10 {
                        Some((one, other, rest.skip(1)))
                    } else {
                        None
                    }
                },
            }
        },
    }
}

/// Two header lines and a message that were read are written as exactly the
/// bytes they were read from, and the contents of the lines hold no line
/// feed.
pub proof fn lemma_parse_closing_sound(data: Seq<u8>, first: Seq<u8>, second: Seq<u8>)
    ensures
        parse_closing(data, first, second) matches Some((one, other, message)) ==> one_line(one)
            && one_line(other) && closing_bytes(first, one, second, other, message) == data,
{
    match parse_closing(data, first, second) {
        None => {},
        Some((one, other, message)) => {
            let one_used = field(data, first).unwrap().1;
            lemma_field_sound(data, first);
            let after_one = data.skip(one_used as int);
            let other_used = field(after_one, second).unwrap().1;
            lemma_field_sound(after_one, second);
            let rest = after_one.skip(other_used as int);
            assert(rest =~= seq![10u8] + message);
            assert(after_one =~= after_one.take(other_used as int) + rest);
            assert(data =~= data.take(one_used as int) + after_one);
        },
    }
}

/// Two header lines with one-line contents are read back, with the
/// message, from the bytes they are written as.
pub proof fn lemma_parse_closing_complete(
    first: Seq<u8>,
    one: Seq<u8>,
    second: Seq<u8>,
    other: Seq<u8>,
    message: Seq<u8>,
)
    requires
        one_line(one),
        one_line(other),
    ensures
        parse_closing(closing_bytes(first, one, second, other, message), first, second) == Some(
            (one, other, message),
        ),
        closing_bytes(first, one, second, other, message).len() == first.len() + one.len()
            + second.len() + other.len() + message.len() + 3,
        first.len() > 0 ==> closing_bytes(first, one, second, other, message)[0] == first[0],
{
    let tail = seq![10u8] + message;
    let other_line = field_bytes(second, other);
    let one_line = field_bytes(first, one);
    let after_one = other_line + tail;
    let data = one_line + after_one;
    lemma_field_complete(first, one, after_one);
    assert(data.skip(one_line.len() as int) =~= after_one);
    lemma_field_complete(second, other, tail);
    assert(after_one.skip(other_line.len() as int) =~= tail);
    assert(tail.skip(1) =~= message);
    assert(tail[0] == 10);
}

/// Reads the header line with `key` that starts at `at`, and tells where
/// its content lies: from the first position up to the second, which holds
/// the line feed.
pub fn read_field(data: &[u8], at: usize, key: &[u8]) -> (found: Option<(usize, usize)>)
    requires
        at <= data@.len(),
    ensures
        match field(data@.skip(at as int), key@) {
            None => found is None,
            Some((content, used)) => found matches Some((from, to)) && from == at + key@.len()
                && to + 1 == at + used && from <= to < data@.len() && content == data@.subrange(
                from as int,
                to as int,
            ),
        },
{
    let ghost left = data@.skip(at as int);
    let end: usize = data.len();
    let width: usize = key.len();
    if end - at < width {
        return None;
    }
    let from: usize = at + width;
    proof {
        assert(left.take(width as int) =~= data@.subrange(at as int, from as int));
    }
    if !same_bytes(slice_subrange(data, at, from), key) {
        return None;
    }
    proof {
        assert(left.skip(width as int) =~= data@.skip(from as int));
    }
    match find_byte(data, from, 10) {
        None => None,
        Some(to) => {
            proof {
                assert(left.subrange(width as int, width + (to - from)) =~= data@.subrange(
                    from as int,
                    to as int,
                ));
            }
            Some((from, to))
        },
    }
}

/// Reads the digest line with `key` that starts at `at`, and tells where
/// the next line starts.
pub fn read_id_field(data: &[u8], at: usize, key: &[u8]) -> (found: Option<(SHA1, usize)>)
    requires
        at <= data@.len(),
    ensures
        match id_field(data@.skip(at as int), key@) {
            None => found is None,
            Some((id, used)) => found matches Some((digest, next)) && digest@ == id && next == at
                + used && next <= data@.len(),
        },
{
    let end: usize = data.len();
    match read_field(data, at, key) {
        None => None,
        Some((from, to)) => match SHA1::from_hex(slice_subrange(data, from, to)) {
            None => None,
            Some(digest) => Some((digest, to + 1)),
        },
    }
}

/// Reads the two header lines with the keys `first` and `second` that start
/// at `at`, and the message behind the empty line that follows them.
pub fn read_closing(data: &[u8], at: usize, first: &[u8], second: &[u8]) -> (found: Option<
    (Vec<u8>, Vec<u8>, Vec<u8>),
>)
    requires
        at <= data@.len(),
    ensures
        match parse_closing(data@.skip(at as int), first@, second@) {
            None => found is None,
            Some((one, other, message)) => found matches Some(read) && read.0@ == one && read.1@
                == other && read.2@ == message,
        },
{
    let ghost left = data@.skip(at as int);
    let end: usize = data.len();
    let (one_from, one_to): (usize, usize) = match read_field(data, at, first) {
        Some(found) => found,
        None => {
            return None;
        },
    };
    let after_one: usize = one_to + 1;
    proof {
        assert(left.skip(after_one - at) =~= data@.skip(after_one as int));
    }
    let (other_from, other_to): (usize, usize) = match read_field(data, after_one, second) {
        Some(found) => found,
        None => {
            return None;
        },
    };
    let after_other: usize = other_to + 1;
    proof {
        assert(data@.skip(after_one as int).skip(after_other - after_one) =~= data@.skip(
            after_other as int,
        ));
    }
    if after_other >= end || data[after_other] != 10 {
        return None;
    }
    proof {
        assert(data@.skip(after_other as int).skip(1) =~= data@.subrange(
            after_other + 1,
            end as int,
        ));
    }
    Some(
        (
            copy_range(data, one_from, one_to),
            copy_range(data, other_from, other_to),
            copy_range(data, after_other + 1, end),
        ),
    )
}

/// Appends two header lines, an empty line and a message to `out`.
pub fn write_closing(
    out: &mut Vec<u8>,
    first: &[u8],
    one: &[u8],
    second: &[u8],
    other: &[u8],
    message: &[u8],
)
    ensures
        final(out)@ == old(out)@ + closing_bytes(first@, one@, second@, other@, message@),
{
    write_field(out, first, one);
    write_field(out, second, other);
    out.push(10);
    append_all(out, message);
    proof {
        assert(out@ =~= old(out)@ + closing_bytes(first@, one@, second@, other@, message@));
    }
}

/// Appends the header line with `key` and `content` to `out`.
pub fn write_field(out: &mut Vec<u8>, key: &[u8], content: &[u8])
    ensures
        final(out)@ == old(out)@ + field_bytes(key@, content@),
{
    append_all(out, key);
    append_all(out, content);
    out.push(10);
    proof {
        assert(out@ =~= old(out)@ + field_bytes(key@, content@));
    }
}

} // verus!
