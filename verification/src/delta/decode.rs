//! Applying a delta to its base.

use crate::bytes::append_range;
use crate::delta::instruction::{apply_delta, parse_instruction, prepend, Instruction};
use crate::errors::DecodeError;
use crate::varint::{
    decode_varint, lemma_decode_varint_parity, lemma_decode_varint_used, read_varint, VarintRead,
};
use vstd::prelude::*;

verus! {

/// An instruction as it was read from a delta.
#[derive(Clone, Copy, Debug)]
pub enum Parsed {
    /// The delta ends before the instruction does.
    Incomplete,
    /// The literal bytes lie in the delta from `from` up to `to`, where the
    /// next instruction starts.
    Insert { from: usize, to: usize },
    /// Offset and length of a copy, and the place where the next
    /// instruction starts. The offset is `None` where it does not fit 128
    /// bits, the length where it does not fit 127 bits; either is then
    /// beyond any base.
    Copy { offset: Option<u128>, len: Option<u128>, next: usize },
}

/// Whether `read` stands for the number `exact`: the number itself where it
/// is `most` at most, and `None` where it is more.
pub open spec fn stands_for(read: Option<u128>, exact: nat, most: nat) -> bool {
    match read {
        Some(value) => value == exact && exact <= most,
        None => exact > most,
    }
}

/// Whether `found` describes the instruction at position `at` of `delta`.
pub open spec fn describes(found: Parsed, delta: Seq<u8>, at: int) -> bool {
    match parse_instruction(delta.skip(at)) {
        None => found is Incomplete,
        Some((Instruction::Insert { bytes }, used)) => {
            &&& found matches Parsed::Insert { from, to }
            &&& at < from <= to <= delta.len()
            &&& to == at + used
            &&& bytes == delta.subrange(from as int, to as int)
        },
        Some((Instruction::Copy { offset, len }, used)) => {
            &&& found matches Parsed::Copy { offset: place, len: count, next }
            &&& at < next <= delta.len()
            &&& next == at + used
            &&& stands_for(place, offset, u128::MAX as nat)
            &&& stands_for(count, len, (u128::MAX / 2) as nat)
        },
    }
}

/// Reads the instruction that starts at `at`.
pub fn read_instruction(delta: &[u8], at: usize) -> (found: Parsed)
    requires
        at < delta@.len(),
    ensures
        describes(found, delta@, at as int),
{
    let ghost left = delta@.skip(at as int);
    proof {
        lemma_decode_varint_used(left);
        lemma_decode_varint_parity(left);
    }
    let size: usize = delta.len();
    let head = read_varint(delta, at);
    let (count, body): (Option<u128>, usize) = match head {
        VarintRead::Incomplete => {
            return Parsed::Incomplete;
        },
        VarintRead::Value { value, next } => (Some(value / 2), next),
        VarintRead::TooLarge { next } => (None, next),
    };
    let ghost header = decode_varint(left).unwrap().0;
    let ghost rest = left.skip(body - at);
    proof {
        assert(rest =~= delta@.skip(body as int));
        assert(stands_for(count, header / 2, (u128::MAX / 2) as nat));
        assert(header % 2 == delta@[at as int] as nat % 2);
    }
    if delta[at] % 2 == 0 {
        match count {
            Some(n) => {
                if n <= (size - body) as u128 {
                    let to: usize = body + n as usize;
                    proof {
                        assert(rest.take(n as int) =~= delta@.subrange(body as int, to as int));
                    }
                    Parsed::Insert { from: body, to }
                } else {
                    Parsed::Incomplete
                }
            },
            None => Parsed::Incomplete,
        }
    } else {
        proof {
            lemma_decode_varint_used(rest);
        }
        match read_varint(delta, body) {
            VarintRead::Incomplete => Parsed::Incomplete,
            VarintRead::Value { value, next } => Parsed::Copy {
                offset: Some(value),
                len: count,
                next,
            },
            VarintRead::TooLarge { next } => Parsed::Copy { offset: None, len: count, next },
        }
    }
}

/// Rebuilds a byte string from `base` and a `delta` made against it.
///
/// The instructions are carried out in order. The first copy that reaches
/// beyond the end of `base` ends the work with `OutOfRange`, and a delta
/// that stops in the middle of an instruction ends it with `Truncated`.
pub fn delta_decode(base: &[u8], delta: &[u8]) -> (rebuilt: Result<Vec<u8>, DecodeError>)
    ensures
        match rebuilt {
            Ok(bytes) => apply_delta(base@, delta@) == Ok::<Seq<u8>, DecodeError>(bytes@),
            Err(error) => apply_delta(base@, delta@) == Err::<Seq<u8>, DecodeError>(error),
        },
{
    let mut out: Vec<u8> = Vec::new();
    let mut at: usize = 0;
    let limit: u128 = base.len() as u128;
    proof {
        assert(delta@.skip(0) =~= delta@);
        match apply_delta(base@, delta@) {
            Ok(all) => {
                assert(Seq::<u8>::empty() + all =~= all);
            },
            Err(_) => {},
        }
    }
    while at < delta.len()
        invariant
            at <= delta@.len(),
            limit == base@.len() <= usize::MAX,
            apply_delta(base@, delta@) == prepend(out@, apply_delta(base@, delta@.skip(at as int))),
        decreases delta@.len() - at,
    {
        let ghost left = delta@.skip(at as int);
        let ghost built = out@;
        match read_instruction(delta, at) {
            Parsed::Incomplete => {
                return Err(DecodeError::Truncated);
            },
            Parsed::Insert { from, to } => {
                append_range(&mut out, delta, from, to);
                proof {
                    assert(left.skip(to - at) =~= delta@.skip(to as int));
                    lemma_prepend_twice(
                        built,
                        delta@.subrange(from as int, to as int),
                        apply_delta(base@, delta@.skip(to as int)),
                    );
                }
                at = to;
            },
            Parsed::Copy { offset, len, next } => {
                let within: Option<(usize, usize)> = match (offset, len) {
                    (Some(o), Some(n)) => if o <= limit && n <= limit - o {
                        Some((o as usize, (o + n) as usize))
                    } else {
                        None
                    },
                    _ => None,
                };
                let (from, to): (usize, usize) = match within {
                    Some(range) => range,
                    None => {
                        return Err(DecodeError::OutOfRange);
                    },
                };
                append_range(&mut out, base, from, to);
                proof {
                    assert(left.skip(next - at) =~= delta@.skip(next as int));
                    lemma_prepend_twice(
                        built,
                        base@.subrange(from as int, to as int),
                        apply_delta(base@, delta@.skip(next as int)),
                    );
                }
                at = next;
            },
        }
    }
    proof {
        assert(out@ + Seq::<u8>::empty() =~= out@);
    }
    Ok(out)
}

/// Putting two pieces in front, one after the other, is putting their
/// concatenation in front.
proof fn lemma_prepend_twice(first: Seq<u8>, second: Seq<u8>, rest: Result<Seq<u8>, DecodeError>)
    ensures
        prepend(first, prepend(second, rest)) == prepend(first + second, rest),
{
    match rest {
        Ok(tail) => {
            assert(first + (second + tail) =~= (first + second) + tail);
        },
        Err(_) => {},
    }
}

} // verus!
