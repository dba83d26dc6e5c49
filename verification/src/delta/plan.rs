//! Which instructions the diff engine chooses, as mathematics, and what
//! follows from the choice.
//!
//! The target is scanned from its start. Where the longest run of the base
//! that matches at the current position has at least `MIN_COPY` bytes, that
//! run is copied, from the earliest offset that offers it, and the scan goes
//! on behind it. Otherwise the byte joins the literal run that the next copy,
//! or the end of the target, closes.

use crate::delta::instruction::{
    apply_delta, encode_program, instruction_output, lemma_apply_encoded, run_program,
    Instruction,
};
use crate::delta::matching::{
    best_match, lemma_best_match, lemma_match_agrees, lemma_match_len_bounds, longest_match,
    MIN_COPY,
};
use crate::errors::DecodeError;
use vstd::prelude::*;

verus! {

/// The insert instruction for `new[from..to]`, or nothing where that range
/// is empty.
pub open spec fn literal_run(new: Seq<u8>, from: int, to: int) -> Seq<Instruction> {
    if from < to {
        seq![Instruction::Insert { bytes: new.subrange(from, to) }]
    } else {
        Seq::empty()
    }
}

/// The instructions for `new[pending..]`, given that the scan stands at `at`
/// and that `new[pending..at]` is the literal run collected so far.
pub open spec fn greedy_plan(old: Seq<u8>, new: Seq<u8>, at: int, pending: int) -> Seq<
    Instruction,
>
    decreases new.len() - at,
{
    if at >= new.len() {
        literal_run(new, pending, new.len() as int)
    } else {
        let found = longest_match(old, new, at);
        if found.len >= MIN_COPY {
            proof {
                lemma_best_match(old, new, at, old.len());
                lemma_match_len_bounds(old, found.offset as int, new, at);
            }
            literal_run(new, pending, at) + seq![
                Instruction::Copy { offset: found.offset, len: found.len },
            ] + greedy_plan(old, new, at + found.len, at + found.len)
        } else {
            greedy_plan(old, new, at + 1, pending)
        }
    }
}

/// The instructions that turn `old` into `new`: none for an empty `new`, one
/// copy of the whole where the two are equal, and the greedy choice
/// otherwise.
pub open spec fn delta_plan(old: Seq<u8>, new: Seq<u8>) -> Seq<Instruction> {
    if new.len() == 0 {
        Seq::empty()
    } else if old == new {
        seq![Instruction::Copy { offset: 0, len: new.len() }]
    } else {
        greedy_plan(old, new, 0, 0)
    }
}

/// The delta that turns `old` into `new`.
pub open spec fn delta_bytes(old: Seq<u8>, new: Seq<u8>) -> Seq<u8> {
    encode_program(delta_plan(old, new))
}

/// The number of bytes that the copy instructions of `program` supply.
pub open spec fn copied_len(program: Seq<Instruction>) -> nat
    decreases program.len(),
{
    if program.len() == 0 {
        0
    } else {
        let rest = copied_len(program.drop_last());
        match program.last() {
            Instruction::Copy { offset, len } => rest + len,
            Instruction::Insert { bytes } => rest,
        }
    }
}

/// The share of `new` that copies from `old` supply, as numerator and
/// denominator. An empty `new` needs no new bytes at all, so its share is
/// one whole.
pub open spec fn similarity(old: Seq<u8>, new: Seq<u8>) -> (nat, nat) {
    if new.len() == 0 {
        (1, 1)
    } else {
        (copied_len(delta_plan(old, new)), new.len())
    }
}

/// Running two programs one after the other appends what they build.
pub proof fn lemma_run_concat(base: Seq<u8>, first: Seq<Instruction>, second: Seq<Instruction>)
    ensures
        run_program(base, first + second) == (match run_program(base, first) {
            None => None,
            Some(front) => match run_program(base, second) {
                None => None,
                Some(back) => Some(front + back),
            },
        }),
    decreases first.len(),
{
    if first.len() == 0 {
        assert(first + second =~= second);
        match run_program(base, second) {
            Some(back) => {
                assert(Seq::<u8>::empty() + back =~= back);
            },
            None => {},
        }
    } else {
        assert((first + second).skip(1) =~= first.skip(1) + second);
        lemma_run_concat(base, first.skip(1), second);
        match (
            run_program(base, first.skip(1)),
            run_program(base, second),
            instruction_output(base, first[0]),
        ) {
            (Some(middle), Some(back), Some(head)) => {
                assert(head + (middle + back) =~= (head + middle) + back);
            },
            _ => {},
        }
    }
}

/// The copied bytes of two programs add up.
pub proof fn lemma_copied_concat(first: Seq<Instruction>, second: Seq<Instruction>)
    ensures
        copied_len(first + second) == copied_len(first) + copied_len(second),
    decreases second.len(),
{
    if second.len() == 0 {
        assert(first + second =~= first);
    } else {
        assert((first + second).drop_last() =~= first + second.drop_last());
        lemma_copied_concat(first, second.drop_last());
    }
}

/// A program of one instruction builds what that instruction appends.
pub proof fn lemma_run_single(base: Seq<u8>, instruction: Instruction)
    ensures
        run_program(base, seq![instruction]) == instruction_output(base, instruction),
{
    let one = seq![instruction];
    assert(one.skip(1) =~= Seq::<Instruction>::empty());
    assert(run_program(base, one.skip(1)) == Some(Seq::<u8>::empty()));
    match instruction_output(base, instruction) {
        Some(bytes) => {
            assert(bytes + Seq::<u8>::empty() =~= bytes);
        },
        None => {},
    }
}

/// A program of one instruction copies the length of that instruction, if
/// it is a copy, and nothing otherwise.
pub proof fn lemma_copied_single(instruction: Instruction)
    ensures
        copied_len(seq![instruction]) == (match instruction {
            Instruction::Copy { offset, len } => len,
            Instruction::Insert { bytes } => 0,
        }),
{
    let one = seq![instruction];
    assert(one.drop_last() =~= Seq::<Instruction>::empty());
    assert(copied_len(one.drop_last()) == 0);
}

/// A literal run builds its range of the target and copies nothing.
pub proof fn lemma_literal_run(base: Seq<u8>, new: Seq<u8>, from: int, to: int)
    requires
        0 <= from <= to <= new.len(),
    ensures
        run_program(base, literal_run(new, from, to)) == Some(new.subrange(from, to)),
        copied_len(literal_run(new, from, to)) == 0,
{
    if from < to {
        let insert = Instruction::Insert { bytes: new.subrange(from, to) };
        lemma_run_single(base, insert);
        lemma_copied_single(insert);
    } else {
        assert(new.subrange(from, to) =~= Seq::<u8>::empty());
    }
}

/// The greedy instructions rebuild the rest of the target from the pending
/// literal run on, and copy no more bytes than the scan has left.
pub proof fn lemma_greedy_plan(old: Seq<u8>, new: Seq<u8>, at: int, pending: int)
    requires
        0 <= pending <= at <= new.len(),
    ensures
        run_program(old, greedy_plan(old, new, at, pending)) == Some(
            new.subrange(pending, new.len() as int),
        ),
        copied_len(greedy_plan(old, new, at, pending)) <= new.len() - at,
    decreases new.len() - at,
{
    let end = new.len() as int;
    if at >= new.len() {
        lemma_literal_run(old, new, pending, end);
    } else {
        let found = longest_match(old, new, at);
        if found.len >= MIN_COPY {
            let next = at + found.len;
            lemma_best_match(old, new, at, old.len());
            lemma_match_len_bounds(old, found.offset as int, new, at);
            lemma_match_agrees(old, found.offset as int, new, at, found.len);
            lemma_greedy_plan(old, new, next, next);
            let front = literal_run(new, pending, at);
            let copy = seq![Instruction::Copy { offset: found.offset, len: found.len }];
            let rest = greedy_plan(old, new, next, next);
            lemma_literal_run(old, new, pending, at);
            lemma_run_single(old, Instruction::Copy { offset: found.offset, len: found.len });
            lemma_run_concat(old, front, copy);
            lemma_run_concat(old, front + copy, rest);
            assert(new.subrange(pending, at) + new.subrange(at, next) + new.subrange(next, end)
                =~= new.subrange(pending, end));
            lemma_copied_single(Instruction::Copy { offset: found.offset, len: found.len });
            lemma_copied_concat(front, copy);
            lemma_copied_concat(front + copy, rest);
        } else {
            lemma_greedy_plan(old, new, at + 1, pending);
        }
    }
}

/// From a position where no usable match starts any more, the rest of the
/// target is one literal run.
pub proof fn lemma_greedy_tail(old: Seq<u8>, new: Seq<u8>, at: int, pending: int)
    requires
        0 <= pending <= at <= new.len(),
        forall|j: int| at <= j < new.len() ==> longest_match(old, new, j).len < MIN_COPY,
    ensures
        greedy_plan(old, new, at, pending) == literal_run(new, pending, new.len() as int),
    decreases new.len() - at,
{
    if at < new.len() {
        lemma_greedy_tail(old, new, at + 1, pending);
    }
}

/// Applying the delta for `old` and `new` to `old` gives `new`, for every
/// pair of byte strings.
pub proof fn lemma_round_trip(old: Seq<u8>, new: Seq<u8>)
    ensures
        apply_delta(old, delta_bytes(old, new)) == Ok::<Seq<u8>, DecodeError>(new),
{
    let plan = delta_plan(old, new);
    lemma_plan_builds(old, new);
    lemma_apply_encoded(old, plan, Seq::empty());
    assert(encode_program(plan) + Seq::<u8>::empty() =~= encode_program(plan));
    assert(new + Seq::<u8>::empty() =~= new);
}

/// The chosen instructions build `new` from `old`.
pub proof fn lemma_plan_builds(old: Seq<u8>, new: Seq<u8>)
    ensures
        run_program(old, delta_plan(old, new)) == Some(new),
{
    let plan = delta_plan(old, new);
    if new.len() == 0 {
        assert(new =~= Seq::<u8>::empty());
    } else if old == new {
        lemma_run_single(old, Instruction::Copy { offset: 0, len: new.len() });
        assert(old.subrange(0, new.len() as int) =~= new);
    } else {
        lemma_greedy_plan(old, new, 0, 0);
        assert(new.subrange(0, new.len() as int) =~= new);
    }
}

/// The share of copied bytes lies between nothing and one whole. It is one
/// whole where `old` and `new` are equal, and nothing where `old` is empty
/// and `new` is not.
pub proof fn lemma_similarity(old: Seq<u8>, new: Seq<u8>)
    ensures
        0 <= similarity(old, new).0 <= similarity(old, new).1,
        similarity(old, new).1 > 0,
        old == new ==> similarity(old, new).0 == similarity(old, new).1,
        old.len() == 0 && new.len() > 0 ==> similarity(old, new).0 == 0,
{
    if new.len() == 0 {
    } else if old == new {
        lemma_copied_single(Instruction::Copy { offset: 0, len: new.len() });
    } else {
        lemma_greedy_plan(old, new, 0, 0);
        if old.len() == 0 {
            lemma_without_base(old, new);
            lemma_literal_run(old, new, 0, new.len() as int);
        }
    }
}

/// Against an empty base the whole target is one literal run.
pub proof fn lemma_without_base(old: Seq<u8>, new: Seq<u8>)
    requires
        old.len() == 0,
        new.len() > 0,
    ensures
        delta_plan(old, new) == seq![Instruction::Insert { bytes: new }],
{
    assert forall|j: int| 0 <= j < new.len() implies longest_match(old, new, j).len
        < MIN_COPY by {
        assert(best_match(old, new, j, 0).len == 0);
    }
    lemma_greedy_tail(old, new, 0, 0);
    assert(new.subrange(0, new.len() as int) =~= new);
}

} // verus!
