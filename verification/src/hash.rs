//! Content identity: the SHA-1 digest of an object's type, length and
//! payload.

use crate::bytes::append_all;
use crate::internal::object::types::ObjectType;
use vstd::prelude::*;
use vstd::string::StringExecFns;

verus! {

/// The SHA-1 digest of `message`: the 20 bytes that the standard assigns to
/// it.
pub uninterp spec fn sha1_digest(message: Seq<u8>) -> Seq<u8>;

/// The longest message that SHA-1 is defined for: its length in bits has to
/// fit 64 bits.
pub const MAX_MESSAGE_LEN: u64 = 0x1FFF_FFFF_FFFF_FFFF;

/// The longest payload that can be hashed as an object. It leaves room for
/// the type and the length that are hashed in front of it.
pub const MAX_PAYLOAD_LEN: u64 = 0x1FFF_FFFF_FFFF_FF00;

/// `n` in decimal digits, in ASCII, without leading zeros.
pub open spec fn decimal(n: nat) -> Seq<u8>
    decreases n,
{
    if n < 10 {
        seq![(48 + n) as u8]
    } else {
        decimal(n / 10).push((48 + n % 10) as u8)
    }
}

/// The ASCII digit for `n` below 16: `0` to `9`, then `a` to `f`.
pub open spec fn hex_digit(n: nat) -> u8 {
    if n < 10 {
        (48 + n) as u8
    } else {
        (87 + n) as u8
    }
}

/// `bytes` in lower-case hexadecimal, two ASCII digits for each byte, the
/// high half first.
pub open spec fn hex(bytes: Seq<u8>) -> Seq<u8> {
    Seq::new(
        2 * bytes.len(),
        |i: int|
            hex_digit(
                if i % 2 == 0 {
                    (bytes[i / 2] / 16) as nat
                } else {
                    (bytes[i / 2] % 16) as nat
                },
            ),
    )
}

/// The number that the ASCII digit `digit` stands for in lower-case
/// hexadecimal, if it is such a digit.
pub open spec fn hex_value(digit: u8) -> Option<nat> {
    if 48 <= digit <= 57 {
        Some((digit - 48) as nat)
    } else if 97 <= digit <= 102 {
        Some((digit - 87) as nat)
    } else {
        None
    }
}

/// Whether `text` consists of lower-case hexadecimal digits.
pub open spec fn is_hex(text: Seq<u8>) -> bool {
    forall|i: int| 0 <= i < text.len() ==> hex_value(#[trigger] text[i]) is Some
}

/// The bytes that `text` stands for in hexadecimal, two digits for each
/// byte, the high half first.
pub open spec fn unhex(text: Seq<u8>) -> Seq<u8> {
    Seq::new(
        text.len() / 2,
        |i: int| (16 * hex_value(text[2 * i]).unwrap() + hex_value(text[2 * i + 1]).unwrap()) as u8,
    )
}

/// Bytes written in hexadecimal are read back as they were.
pub proof fn lemma_unhex_hex(bytes: Seq<u8>)
    ensures
        is_hex(hex(bytes)),
        hex(bytes).len() == 2 * bytes.len(),
        unhex(hex(bytes)) == bytes,
{
    let text = hex(bytes);
    assert forall|i: int| 0 <= i < bytes.len() implies unhex(text)[i] == bytes[i] by {
        let byte = bytes[i];
        assert((2 * i) / 2 == i && (2 * i + 1) / 2 == i);
        assert((2 * i) % 2 == 0 && (2 * i + 1) % 2 == 1);
        assert(text[2 * i] == hex_digit((byte / 16) as nat));
        assert(text[2 * i + 1] == hex_digit((byte % 16) as nat));
        assert(16 * (byte / 16) + byte % 16 == byte);
    }
    assert(unhex(text) =~= bytes);
}

/// Hexadecimal text of even length is written back as it was read.
pub proof fn lemma_hex_unhex(text: Seq<u8>)
    requires
        is_hex(text),
        text.len() % 2 == 0,
    ensures
        hex(unhex(text)) == text,
{
    let bytes = unhex(text);
    assert forall|j: int| 0 <= j < text.len() implies hex(bytes)[j] == text[j] by {
        let i = j / 2;
        let high = hex_value(text[2 * i]).unwrap();
        let low = hex_value(text[2 * i + 1]).unwrap();
        assert(hex_value(text[2 * i]) is Some && hex_value(text[2 * i + 1]) is Some);
        assert(bytes[i] == 16 * high + low);
        assert((16 * high + low) / 16 == high && (16 * high + low) % 16 == low);
        if j % 2 == 0 {
            assert(j == 2 * i);
        } else {
            assert(j == 2 * i + 1);
        }
    }
    assert(hex(bytes) =~= text);
}

/// ASCII bytes as text.
pub open spec fn ascii_text(bytes: Seq<u8>) -> Seq<char> {
    Seq::new(bytes.len(), |i: int| bytes[i] as char)
}

/// What is hashed for an object: the name of its type, a space, the length
/// of the payload in decimal, a zero byte, and the payload.
pub open spec fn object_frame(kind: ObjectType, payload: Seq<u8>) -> Seq<u8> {
    kind.tag() + seq![32u8] + decimal(payload.len()) + seq![0u8] + payload
}

/// The digest that an object of type `kind` with `payload` goes by.
pub open spec fn object_digest(kind: ObjectType, payload: Seq<u8>) -> Seq<u8> {
    sha1_digest(object_frame(kind, payload))
}

/// Ten to the power of `k`.
pub open spec fn pow10(k: nat) -> nat
    decreases k,
{
    if k == 0 {
        1
    } else {
        10 * pow10((k - 1) as nat)
    }
}

/// Every digit of a number in decimal is one of `0` to `9`.
pub proof fn lemma_decimal_digits(n: nat)
    ensures
        forall|i: int| 0 <= i < decimal(n).len() ==> 48 <= #[trigger] decimal(n)[i] <= 57,
    decreases n,
{
    if n >= 10 {
        lemma_decimal_digits(n / 10);
        let front = decimal(n / 10);
        assert forall|i: int| 0 <= i < decimal(n).len() implies 48 <= #[trigger] decimal(n)[i]
            <= 57 by {
            if i < front.len() {
                assert(decimal(n)[i] == front[i]);
            }
        }
    }
}

/// A number below `10^k` has at most `k` decimal digits.
pub proof fn lemma_decimal_len(n: nat, k: nat)
    requires
        k >= 1,
        n < pow10(k),
    ensures
        1 <= decimal(n).len() <= k,
    decreases k,
{
    if n >= 10 {
        assert(pow10(1) == 10) by {
            reveal_with_fuel(pow10, 2);
        }
        lemma_decimal_len(n / 10, (k - 1) as nat);
    }
}

/// A number that fits 64 bits has at most 20 decimal digits.
pub proof fn lemma_decimal_len_u64(n: nat)
    requires
        n <= u64::MAX,
    ensures
        1 <= decimal(n).len() <= 20,
{
    assert(pow10(20) == 100000000000000000000) by {
        reveal_with_fuel(pow10, 21);
    }
    lemma_decimal_len(n, 20);
}

/// Computes the SHA-1 digest of `message` by `sha1::Sha1::digest`. Nothing
/// is proved of the outside code: that it returns the digest of the
/// standard, a function of the message alone, is taken from its
/// documentation. It is not called on a message too long for SHA-1.
#[verifier::external_body]
fn sha1_of(message: &[u8]) -> (digest: [u8; 20])
    requires
        message@.len() <= MAX_MESSAGE_LEN,
    ensures
        digest@ == sha1_digest(message@),
{
    <sha1::Sha1 as sha1::Digest>::digest(message).into()
}

/// Appends `n` in decimal to `out`.
pub fn push_decimal(out: &mut Vec<u8>, n: usize)
    ensures
        final(out)@ == old(out)@ + decimal(n as nat),
    decreases n,
{
    if n >= 10 {
        push_decimal(out, n / 10);
    }
    proof {
        let digit = (48 + n % 10) as u8;
        if n >= 10 {
            assert(out@.push(digit) =~= old(out)@ + decimal((n / 10) as nat).push(digit));
        } else {
            assert(out@.push(digit) =~= old(out)@ + decimal(n as nat));
        }
    }
    out.push(48 + (n % 10) as u8);
}

/// The text of one hexadecimal digit.
pub fn digit_str(n: u8) -> (text: &'static str)
    requires
        n < 16,
    ensures
        text@ == seq![hex_digit(n as nat) as char],
{
    proof {
        reveal_strlit("0");
        reveal_strlit("1");
        reveal_strlit("2");
        reveal_strlit("3");
        reveal_strlit("4");
        reveal_strlit("5");
        reveal_strlit("6");
        reveal_strlit("7");
        reveal_strlit("8");
        reveal_strlit("9");
        reveal_strlit("a");
        reveal_strlit("b");
        reveal_strlit("c");
        reveal_strlit("d");
        reveal_strlit("e");
        reveal_strlit("f");
    }
    let text: &'static str = match n {
        0 => "0",
        1 => "1",
        2 => "2",
        3 => "3",
        4 => "4",
        5 => "5",
        6 => "6",
        7 => "7",
        8 => "8",
        9 => "9",
        10 => "a",
        11 => "b",
        12 => "c",
        13 => "d",
        14 => "e",
        _ => "f",
    };
    proof {
        assert(text@ =~= seq![hex_digit(n as nat) as char]);
    }
    text
}

/// The ASCII digit for `n` in hexadecimal.
pub fn digit_byte(n: u8) -> (digit: u8)
    requires
        n < 16,
    ensures
        digit == hex_digit(n as nat),
{
    if n < 10 {
        48 + n
    } else {
        87 + n
    }
}

/// The number that an ASCII digit stands for in lower-case hexadecimal, if
/// it is such a digit.
pub fn digit_value(digit: u8) -> (value: Option<u8>)
    ensures
        match value {
            Some(n) => n < 16 && hex_value(digit) == Some(n as nat) && digit == hex_digit(n as nat),
            None => hex_value(digit) is None,
        },
{
    if 48 <= digit && digit <= 57 {
        Some(digit - 48)
    } else if 97 <= digit && digit <= 102 {
        Some(digit - 87)
    } else {
        None
    }
}

/// A SHA-1 digest: 20 bytes.
#[derive(Clone, Copy, Debug, PartialEq, Eq, Hash)]
pub struct SHA1(pub [u8; 20]);

impl View for SHA1 {
    type V = Seq<u8>;

    open spec fn view(&self) -> Seq<u8> {
        self.0@
    }
}

impl SHA1 {
    /// The digest of `data` as it stands. SHA-1 counts the bits of a message
    /// in 64 bits, so `data` may hold `MAX_MESSAGE_LEN` bytes at most, which
    /// is more than a machine of today can hold.
    pub fn new(data: &[u8]) -> (id: SHA1)
        requires
            data@.len() <= MAX_MESSAGE_LEN,
        ensures
            id@ == sha1_digest(data@),
    {
        SHA1(sha1_of(data))
    }

    /// The digest that an object of type `object_type` with payload `data`
    /// goes by. Equal types and payloads give equal digests, on every call.
    /// The payload may hold `MAX_PAYLOAD_LEN` bytes at most, so that SHA-1
    /// is defined for what is hashed.
    pub fn from_type_and_data(object_type: ObjectType, data: &[u8]) -> (id: SHA1)
        requires
            data@.len() <= MAX_PAYLOAD_LEN,
        ensures
            id@ == object_digest(object_type, data@),
    {
        let mut framed: Vec<u8> = object_type.to_bytes();
        framed.push(32);
        push_decimal(&mut framed, data.len());
        framed.push(0);
        append_all(&mut framed, data);
        proof {
            assert(framed@ =~= object_frame(object_type, data@));
            lemma_decimal_len_u64(data@.len());
        }
        SHA1(sha1_of(framed.as_slice()))
    }

    /// The digest that an object of type `object_type` with payload `data`
    /// goes by, for a caller that does not know how long the payload is:
    /// `None` where it holds more than `MAX_PAYLOAD_LEN` bytes.
    pub fn try_from_type_and_data(object_type: ObjectType, data: &[u8]) -> (id: Option<SHA1>)
        ensures
            match id {
                Some(digest) => data@.len() <= MAX_PAYLOAD_LEN && digest@ == object_digest(
                    object_type,
                    data@,
                ),
                None => data@.len() > MAX_PAYLOAD_LEN,
            },
    {
        if data.len() as u128 <= MAX_PAYLOAD_LEN as u128 {
            Some(SHA1::from_type_and_data(object_type, data))
        } else {
            None
        }
    }

    /// The digest that `bytes` holds.
    pub fn from_bytes(bytes: &[u8]) -> (id: SHA1)
        requires
            bytes@.len() == 20,
        ensures
            id@ == bytes@,
    {
        let mut held: [u8; 20] = [0u8; 20];
        let mut at: usize = 0;
        while at < 20
            invariant
                at <= 20,
                bytes@.len() == 20,
                forall|k: int| 0 <= k < at ==> held@[k] == bytes@[k],
            decreases 20 - at,
        {
            held[at] = bytes[at];
            at += 1;
        }
        proof {
            assert(held@ =~= bytes@);
        }
        SHA1(held)
    }

    /// Tells whether two digests hold the same bytes.
    pub fn same_as(&self, other: &SHA1) -> (same: bool)
        ensures
            same == (self@ == other@),
    {
        let mut at: usize = 0;
        while at < 20
            invariant
                at <= 20,
                forall|k: int| 0 <= k < at ==> self@[k] == other@[k],
            decreases 20 - at,
        {
            if self.0[at] != other.0[at] {
                return false;
            }
            at += 1;
        }
        proof {
            assert(self@ =~= other@);
        }
        true
    }

    /// The 20 bytes of the digest.
    pub fn to_data(&self) -> (bytes: Vec<u8>)
        ensures
            bytes@ == self@,
    {
        let mut bytes: Vec<u8> = Vec::new();
        let mut at: usize = 0;
        while at < 20
            invariant
                at <= 20,
                bytes@ == self@.subrange(0, at as int),
            decreases 20 - at,
        {
            proof {
                assert(self@.subrange(0, at + 1) =~= self@.subrange(0, at as int).push(
                    self@[at as int],
                ));
            }
            bytes.push(self.0[at]);
            at += 1;
        }
        proof {
            assert(self@.subrange(0, 20) =~= self@);
        }
        bytes
    }

    /// The digest in lower-case hexadecimal: 40 ASCII digits.
    pub fn to_hex(&self) -> (text: Vec<u8>)
        ensures
            text@ == hex(self@),
    {
        let mut text: Vec<u8> = Vec::new();
        let mut at: usize = 0;
        while at < 20
            invariant
                at <= 20,
                text@ == hex(self@).subrange(0, 2 * at),
            decreases 20 - at,
        {
            let byte: u8 = self.0[at];
            proof {
                let all = hex(self@);
                assert(all.subrange(0, 2 * at + 2) =~= all.subrange(0, 2 * at).push(
                    hex_digit((byte / 16) as nat),
                ).push(hex_digit((byte % 16) as nat)));
            }
            text.push(digit_byte(byte / 16));
            text.push(digit_byte(byte % 16));
            at += 1;
        }
        proof {
            assert(hex(self@).subrange(0, 40) =~= hex(self@));
        }
        text
    }

    /// The digest that `text` stands for, where `text` is 40 lower-case
    /// hexadecimal digits in ASCII, and `None` where it is not.
    pub fn from_hex(text: &[u8]) -> (found: Option<SHA1>)
        ensures
            match found {
                Some(id) => text@.len() == 40 && is_hex(text@) && id@ == unhex(text@),
                None => text@.len() != 40 || !is_hex(text@),
            },
    {
        if text.len() != 40 {
            return None;
        }
        let mut held: [u8; 20] = [0u8; 20];
        let mut at: usize = 0;
        while at < 20
            invariant
                at <= 20,
                text@.len() == 40,
                forall|k: int| 0 <= k < 2 * at ==> hex_value(#[trigger] text@[k]) is Some,
                forall|k: int| 0 <= k < at ==> held@[k] == unhex(text@)[k],
            decreases 20 - at,
        {
            let high: u8 = match digit_value(text[2 * at]) {
                Some(value) => value,
                None => {
                    return None;
                },
            };
            let low: u8 = match digit_value(text[2 * at + 1]) {
                Some(value) => value,
                None => {
                    return None;
                },
            };
            held[at] = 16 * high + low;
            at += 1;
        }
        proof {
            assert(held@ =~= unhex(text@));
        }
        Some(SHA1(held))
    }

    /// The digest in lower-case hexadecimal: 40 characters.
    pub fn to_string(&self) -> (text: String)
        ensures
            text@ == ascii_text(hex(self@)),
    {
        let mut text: String = String::new();
        let mut at: usize = 0;
        while at < 20
            invariant
                at <= 20,
                text@ == ascii_text(hex(self@)).subrange(0, 2 * at),
            decreases 20 - at,
        {
            let byte: u8 = self.0[at];
            proof {
                let all = ascii_text(hex(self@));
                assert(all.subrange(0, 2 * at + 2) =~= all.subrange(0, 2 * at) + seq![
                    hex_digit((byte / 16) as nat) as char,
                ] + seq![hex_digit((byte % 16) as nat) as char]);
            }
            text.append(digit_str(byte / 16));
            text.append(digit_str(byte % 16));
            at += 1;
        }
        proof {
            let all = ascii_text(hex(self@));
            assert(all.subrange(0, 40) =~= all);
        }
        text
    }
}

} // verus!
