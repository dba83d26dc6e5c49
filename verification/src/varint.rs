//! Variable-length integers.
//!
//! A number is written in groups of seven bits, least significant group
//! first. Every byte but the last has its high bit set. Any natural number
//! can be written, and every byte string either starts with exactly one such
//! number or ends before the number does.

use vstd::prelude::*;

verus! {

/// The bytes that stand for `n`.
pub open spec fn encode_varint(n: nat) -> Seq<u8>
    decreases n,
{
    if n < 128 {
        seq![n as u8]
    } else {
        seq![(n % 128 + 128) as u8] + encode_varint(n / 128)
    }
}

/// The number at the head of `bytes` and the count of bytes it occupies, or
/// `None` where `bytes` ends before the number does.
pub open spec fn decode_varint(bytes: Seq<u8>) -> Option<(nat, nat)>
    decreases bytes.len(),
{
    if bytes.len() == 0 {
        None
    } else if bytes[0] < 128 {
        Some((bytes[0] as nat, 1nat))
    } else {
        match decode_varint(bytes.skip(1)) {
            Some((high, used)) => Some(((bytes[0] - 128) as nat + 128 * high, used + 1)),
            None => None,
        }
    }
}

/// What `read_varint` found at a position.
#[derive(Clone, Copy, Debug, PartialEq, Eq, Structural)]
pub enum VarintRead {
    /// The bytes end before the number does.
    Incomplete,
    /// A number that fits 128 bits, and the position just behind it.
    Value { value: u128, next: usize },
    /// A number beyond 128 bits, and the position just behind it.
    TooLarge { next: usize },
}

/// An encoded number is never empty.
pub proof fn lemma_encode_varint_len(n: nat)
    ensures
        encode_varint(n).len() >= 1,
    decreases n,
{
    if n >= 128 {
        lemma_encode_varint_len(n / 128);
    }
}

/// Decoding reads back what encoding wrote, whatever follows it.
pub proof fn lemma_decode_encode_varint(n: nat, rest: Seq<u8>)
    ensures
        decode_varint(encode_varint(n) + rest) == Some((n, encode_varint(n).len())),
    decreases n,
{
    let whole = encode_varint(n) + rest;
    if n < 128 {
        assert(whole[0] == n as u8);
    } else {
        let tail = encode_varint(n / 128);
        lemma_decode_encode_varint(n / 128, rest);
        assert(whole[0] == (n % 128 + 128) as u8);
        assert(whole.skip(1) =~= tail + rest);
    }
}

/// A decoded number occupies at least one byte and no more than there are.
pub proof fn lemma_decode_varint_used(bytes: Seq<u8>)
    ensures
        decode_varint(bytes) matches Some((_, used)) ==> 1 <= used <= bytes.len(),
    decreases bytes.len(),
{
    if bytes.len() > 0 && bytes[0] >= 128 {
        lemma_decode_varint_used(bytes.skip(1));
    }
}

/// The lowest bit of a decoded number is the lowest bit of its first byte.
pub proof fn lemma_decode_varint_parity(bytes: Seq<u8>)
    ensures
        decode_varint(bytes) matches Some((value, _)) ==> value % 2 == bytes[0] as nat % 2,
{
    if bytes.len() > 0 && bytes[0] >= 128 {
        match decode_varint(bytes.skip(1)) {
            Some((high, _)) => {
                let low: nat = (bytes[0] - 128) as nat;
                assert((low + 128 * high) % 2 == low % 2) by (nonlinear_arith);
            },
            None => {},
        }
    }
}

/// Bytes that all have their high bit set hold no complete number.
proof fn lemma_unterminated(bytes: Seq<u8>)
    requires
        forall|i: int| 0 <= i < bytes.len() ==> bytes[i] >= 128,
    ensures
        decode_varint(bytes) is None,
    decreases bytes.len(),
{
    if bytes.len() > 0 {
        lemma_unterminated(bytes.skip(1));
    }
}

/// Appends the encoding of `value` to `out`.
pub fn write_varint(out: &mut Vec<u8>, value: u128)
    ensures
        final(out)@ == old(out)@ + encode_varint(value as nat),
{
    let mut left: u128 = value;
    while left >= 128
        invariant
            out@ + encode_varint(left as nat) == old(out)@ + encode_varint(value as nat),
        decreases left,
    {
        let group: u8 = (left % 128) as u8;
        proof {
            let before = out@;
            let tail = encode_varint((left / 128) as nat);
            assert(encode_varint(left as nat) == seq![(group + 128) as u8] + tail);
            assert(before.push((group + 128) as u8) + tail =~= before + (seq![
                (group + 128) as u8,
            ] + tail));
        }
        out.push(group + 128);
        left = left / 128;
    }
    proof {
        assert(out@.push(left as u8) =~= out@ + encode_varint(left as nat));
    }
    out.push(left as u8);
}

/// Reads the number that starts at `start`.
pub fn read_varint(bytes: &[u8], start: usize) -> (found: VarintRead)
    requires
        start <= bytes@.len(),
    ensures
        found == (match decode_varint(bytes@.skip(start as int)) {
            None => VarintRead::Incomplete,
            Some((value, used)) => if value <= u128::MAX {
                VarintRead::Value { value: value as u128, next: (start + used) as usize }
            } else {
                VarintRead::TooLarge { next: (start + used) as usize }
            },
        }),
{
    let mut end: usize = start;
    while end < bytes.len() && bytes[end] >= 128
        invariant
            start <= end <= bytes@.len(),
            forall|i: int| start <= i < end ==> bytes@[i] >= 128,
        decreases bytes@.len() - end,
    {
        end += 1;
    }
    if end == bytes.len() {
        proof {
            lemma_unterminated(bytes@.skip(start as int));
        }
        return VarintRead::Incomplete;
    }
    let mut value: u128 = bytes[end] as u128;
    let mut too_large: bool = false;
    let mut at: usize = end;
    while at > start
        invariant
            start <= at <= end < bytes@.len(),
            forall|i: int| start <= i < end ==> bytes@[i] >= 128,
            decode_varint(bytes@.skip(at as int)) matches Some((exact, used)) && used == end + 1
                - at && if too_large {
                exact > u128::MAX
            } else {
                exact == value
            },
        decreases at,
    {
        at -= 1;
        let group: u128 = (bytes[at] - 128) as u128;
        proof {
            assert(bytes@.skip(at as int).skip(1) =~= bytes@.skip(at + 1));
        }
        if too_large || value > (u128::MAX - group) / 128 {
            too_large = true;
        } else {
            value = value * 128 + group;
        }
    }
    if too_large {
        VarintRead::TooLarge { next: end + 1 }
    } else {
        VarintRead::Value { value, next: end + 1 }
    }
}

} // verus!
