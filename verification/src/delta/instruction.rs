//! The instruction stream of a delta, as mathematics.
//!
//! A delta is a sequence of instructions, each led by a variable-length
//! header number. An even header `2 * n` is followed by `n` literal bytes to
//! insert. An odd header `2 * n + 1` is followed by a variable-length offset
//! and copies `n` bytes of the base, starting at that offset. Every byte
//! string is therefore a run of whole instructions, possibly followed by one
//! that is cut short.

use crate::errors::DecodeError;
use crate::varint::{
    decode_varint, encode_varint, lemma_decode_encode_varint, lemma_decode_varint_used,
    lemma_encode_varint_len,
};
use vstd::prelude::*;

verus! {

/// One step of a delta.
pub enum Instruction {
    /// Append `len` bytes of the base, starting at `offset`.
    Copy { offset: nat, len: nat },
    /// Append the bytes carried inline.
    Insert { bytes: Seq<u8> },
}

/// The bytes that stand for one instruction.
pub open spec fn encode_instruction(instruction: Instruction) -> Seq<u8> {
    match instruction {
        Instruction::Copy { offset, len } => encode_varint(2 * len + 1) + encode_varint(offset),
        Instruction::Insert { bytes } => encode_varint(2 * bytes.len()) + bytes,
    }
}

/// The bytes that stand for a sequence of instructions.
pub open spec fn encode_program(program: Seq<Instruction>) -> Seq<u8>
    decreases program.len(),
{
    if program.len() == 0 {
        Seq::empty()
    } else {
        encode_instruction(program[0]) + encode_program(program.skip(1))
    }
}

/// The instruction at the head of `delta` and the count of bytes it
/// occupies, or `None` where `delta` ends before the instruction does.
pub open spec fn parse_instruction(delta: Seq<u8>) -> Option<(Instruction, nat)> {
    match decode_varint(delta) {
        None => None,
        Some((header, used)) => {
            let rest = delta.skip(used as int);
            let count = header / 2;
            if header % 2 == 0 {
                if count <= rest.len() {
                    Some((Instruction::Insert { bytes: rest.take(count as int) }, used + count))
                } else {
                    None
                }
            } else {
                match decode_varint(rest) {
                    None => None,
                    Some((offset, more)) => Some(
                        (Instruction::Copy { offset, len: count }, used + more),
                    ),
                }
            }
        },
    }
}

/// What one instruction appends, or `None` where it copies from beyond the
/// end of the base.
pub open spec fn instruction_output(base: Seq<u8>, instruction: Instruction) -> Option<Seq<u8>> {
    match instruction {
        Instruction::Copy { offset, len } => if offset + len <= base.len() {
            Some(base.subrange(offset as int, (offset + len) as int))
        } else {
            None
        },
        Instruction::Insert { bytes } => Some(bytes),
    }
}

/// What a sequence of instructions builds from `base`, or `None` where one
/// of them copies from beyond the end of the base.
pub open spec fn run_program(base: Seq<u8>, program: Seq<Instruction>) -> Option<Seq<u8>>
    decreases program.len(),
{
    if program.len() == 0 {
        Some(Seq::empty())
    } else {
        match instruction_output(base, program[0]) {
            None => None,
            Some(bytes) => match run_program(base, program.skip(1)) {
                None => None,
                Some(tail) => Some(bytes + tail),
            },
        }
    }
}

/// `front` followed by what `rest` gives, or the error of `rest`.
pub open spec fn prepend(front: Seq<u8>, rest: Result<Seq<u8>, DecodeError>) -> Result<
    Seq<u8>,
    DecodeError,
> {
    match rest {
        Ok(tail) => Ok(front + tail),
        Err(error) => Err(error),
    }
}

/// The byte string that `delta` builds from `base`. The instructions are
/// taken in order, and the first one that cannot be carried out decides the
/// error.
pub open spec fn apply_delta(base: Seq<u8>, delta: Seq<u8>) -> Result<Seq<u8>, DecodeError>
    decreases delta.len(),
{
    if delta.len() == 0 {
        Ok(Seq::empty())
    } else {
        match parse_instruction(delta) {
            None => Err(DecodeError::Truncated),
            Some((instruction, used)) => match instruction_output(base, instruction) {
                None => Err(DecodeError::OutOfRange),
                Some(bytes) => {
                    proof {
                        lemma_parse_instruction_used(delta);
                    }
                    prepend(bytes, apply_delta(base, delta.skip(used as int)))
                },
            },
        }
    }
}

/// A parsed instruction occupies at least one byte and no more than there
/// are.
pub proof fn lemma_parse_instruction_used(delta: Seq<u8>)
    ensures
        parse_instruction(delta) matches Some((_, used)) ==> 1 <= used <= delta.len(),
{
    lemma_decode_varint_used(delta);
    match decode_varint(delta) {
        None => {},
        Some((header, used)) => {
            lemma_decode_varint_used(delta.skip(used as int));
        },
    }
}

/// Parsing reads back the instruction that was encoded, whatever follows it.
pub proof fn lemma_parse_encoded(instruction: Instruction, rest: Seq<u8>)
    ensures
        parse_instruction(encode_instruction(instruction) + rest) == Some(
            (instruction, encode_instruction(instruction).len()),
        ),
{
    let whole = encode_instruction(instruction) + rest;
    match instruction {
        Instruction::Copy { offset, len } => {
            let header = encode_varint(2 * len + 1);
            let place = encode_varint(offset);
            assert(whole =~= header + (place + rest));
            lemma_decode_encode_varint(2 * len + 1, place + rest);
            assert(whole.skip(header.len() as int) =~= place + rest);
            lemma_decode_encode_varint(offset, rest);
        },
        Instruction::Insert { bytes } => {
            let header = encode_varint(2 * bytes.len());
            assert(whole =~= header + (bytes + rest));
            lemma_decode_encode_varint(2 * bytes.len(), bytes + rest);
            assert(whole.skip(header.len() as int) =~= bytes + rest);
            assert((bytes + rest).take(bytes.len() as int) =~= bytes);
        },
    }
}

/// The encoding of a program grows at its end by the encoding of the
/// instruction that is added there.
pub proof fn lemma_encode_program_push(program: Seq<Instruction>, last: Instruction)
    ensures
        encode_program(program.push(last)) == encode_program(program) + encode_instruction(last),
    decreases program.len(),
{
    let longer = program.push(last);
    if program.len() == 0 {
        assert(longer.skip(1) =~= Seq::<Instruction>::empty());
        assert(encode_program(longer.skip(1)) =~= Seq::<u8>::empty());
        assert(encode_program(longer) =~= encode_program(program) + encode_instruction(last));
    } else {
        assert(longer.skip(1) =~= program.skip(1).push(last));
        lemma_encode_program_push(program.skip(1), last);
        assert(encode_program(longer) =~= encode_program(program) + encode_instruction(last));
    }
}

/// Applying an encoded program carries out its instructions in order, and
/// then applies whatever bytes follow the program.
pub proof fn lemma_apply_encoded(base: Seq<u8>, program: Seq<Instruction>, rest: Seq<u8>)
    ensures
        apply_delta(base, encode_program(program) + rest) == (match run_program(base, program) {
            Some(built) => prepend(built, apply_delta(base, rest)),
            None => Err(DecodeError::OutOfRange),
        }),
    decreases program.len(),
{
    if program.len() == 0 {
        assert(encode_program(program) + rest =~= rest);
        match apply_delta(base, rest) {
            Ok(tail) => {
                assert(Seq::<u8>::empty() + tail =~= tail);
            },
            Err(_) => {},
        }
    } else {
        let first = program[0];
        let code = encode_instruction(first);
        let after = encode_program(program.skip(1)) + rest;
        let whole = encode_program(program) + rest;
        assert(whole =~= code + after);
        lemma_parse_encoded(first, after);
        match first {
            Instruction::Copy { offset, len } => {
                lemma_encode_varint_len(2 * len + 1);
            },
            Instruction::Insert { bytes } => {
                lemma_encode_varint_len(2 * bytes.len());
            },
        }
        assert(whole.len() > 0);
        assert(whole.skip(code.len() as int) =~= after);
        lemma_apply_encoded(base, program.skip(1), rest);
        match instruction_output(base, first) {
            None => {},
            Some(bytes) => match run_program(base, program.skip(1)) {
                None => {},
                Some(tail) => match apply_delta(base, rest) {
                    Ok(last) => {
                        assert(bytes + (tail + last) =~= (bytes + tail) + last);
                    },
                    Err(_) => {},
                },
            },
        }
    }
}

/// A copy that reaches beyond the end of the base is reported as out of
/// range, wherever it stands behind instructions that can be carried out
/// and whatever follows it.
pub proof fn lemma_copy_beyond_base(
    base: Seq<u8>,
    before: Seq<Instruction>,
    offset: nat,
    len: nat,
    after: Seq<u8>,
)
    requires
        run_program(base, before) is Some,
        offset + len > base.len(),
    ensures
        apply_delta(
            base,
            encode_program(before) + (encode_instruction(Instruction::Copy { offset, len })
                + after),
        ) == Err::<Seq<u8>, DecodeError>(DecodeError::OutOfRange),
{
    let copy = Instruction::Copy { offset, len };
    let tail = encode_instruction(copy) + after;
    lemma_apply_encoded(base, before, tail);
    lemma_parse_encoded(copy, after);
    lemma_encode_varint_len(2 * len + 1);
    assert(tail.len() > 0);
}

} // verus!
