//! The diff engine: choosing the instructions for a pair of byte strings
//! and writing them out.

use crate::bytes::{append_range, same_bytes};
use crate::delta::index::ChunkIndex;
use crate::delta::instruction::{
    encode_instruction, encode_program, lemma_encode_program_push, Instruction,
};
use crate::delta::matching::{lemma_best_match, lemma_match_len_bounds};
use crate::delta::plan::{
    copied_len, delta_bytes, delta_plan, greedy_plan, lemma_similarity, literal_run, similarity,
};
use crate::varint::write_varint;
use vstd::prelude::*;
use vstd::slice::slice_to_vec;

verus! {

/// The two kinds of instruction.
#[derive(Clone, Copy, Debug, PartialEq, Eq, Structural)]
pub enum Optype {
    /// Literal bytes of the target.
    Data,
    /// A run of the base.
    Copy,
}

/// One chosen instruction: for a copy, a range of the base; for data, the
/// range of the target that is carried as literal bytes.
#[derive(Clone, Copy, Debug)]
pub struct DeltaOp {
    pub ins: Optype,
    pub begin: usize,
    pub len: usize,
}

/// A share, as a fraction: `matched` parts out of `total`.
#[derive(Clone, Copy, Debug, PartialEq, Eq, Structural)]
pub struct Similarity {
    pub matched: usize,
    pub total: usize,
}

impl DeltaOp {
    /// The instruction that this choice stands for, given the target.
    pub open spec fn instruction(self, new: Seq<u8>) -> Instruction {
        match self.ins {
            Optype::Copy => Instruction::Copy { offset: self.begin as nat, len: self.len as nat },
            Optype::Data => Instruction::Insert {
                bytes: new.subrange(self.begin as int, self.begin + self.len),
            },
        }
    }

    /// Whether a data range lies within the target.
    pub open spec fn fits(self, new: Seq<u8>) -> bool {
        self.ins == Optype::Data ==> self.begin + self.len <= new.len()
    }
}

/// The instructions that a list of choices stands for.
pub open spec fn program_of(ops: Seq<DeltaOp>, new: Seq<u8>) -> Seq<Instruction> {
    Seq::new(ops.len(), |k: int| ops[k].instruction(new))
}

/// The work of the diff engine on one pair of byte strings: the base, the
/// target, and the instructions chosen to build the target from the base.
pub struct DeltaDiff {
    ops: Vec<DeltaOp>,
    old_data: Vec<u8>,
    new_data: Vec<u8>,
    ssam: usize,
}

impl DeltaDiff {
    /// The base.
    pub closed spec fn base(&self) -> Seq<u8> {
        self.old_data@
    }

    /// The target.
    pub closed spec fn target(&self) -> Seq<u8> {
        self.new_data@
    }

    /// The instructions that were chosen.
    pub closed spec fn program(&self) -> Seq<Instruction> {
        program_of(self.ops@, self.new_data@)
    }

    #[verifier::type_invariant]
    spec fn chosen(&self) -> bool {
        &&& program_of(self.ops@, self.new_data@) == delta_plan(self.old_data@, self.new_data@)
        &&& forall|k: int| 0 <= k < self.ops@.len() ==> (#[trigger] self.ops@[k]).fits(self.new_data@)
        &&& self.ssam == copied_len(delta_plan(self.old_data@, self.new_data@))
    }

    /// Chooses the instructions that build `new_data` from `old_data`.
    pub fn new(old_data: &[u8], new_data: &[u8]) -> (diff: DeltaDiff)
        ensures
            diff.base() == old_data@,
            diff.target() == new_data@,
            diff.program() == delta_plan(old_data@, new_data@),
    {
        let mut ops: Vec<DeltaOp> = Vec::new();
        let mut copied: usize = 0;
        let end: usize = new_data.len();
        let ghost old = old_data@;
        let ghost new = new_data@;
        if end == 0 {
            proof {
                assert(program_of(ops@, new) =~= delta_plan(old, new));
            }
        } else if same_bytes(old_data, new_data) {
            ops.push(DeltaOp { ins: Optype::Copy, begin: 0, len: end });
            copied = end;
            proof {
                assert(program_of(ops@, new) =~= delta_plan(old, new));
                assert(delta_plan(old, new).drop_last() =~= Seq::<Instruction>::empty());
                assert(copied_len(delta_plan(old, new).drop_last()) == 0);
            }
        } else {
            let index = ChunkIndex::build(old_data);
            let mut at: usize = 0;
            let mut pending: usize = 0;
            proof {
                assert(program_of(ops@, new) + greedy_plan(old, new, 0, 0) =~= greedy_plan(
                    old,
                    new,
                    0,
                    0,
                ));
            }
            while at < end
                invariant
                    index.wf(old),
                    old == old_data@,
                    new == new_data@,
                    end == new.len(),
                    copied <= pending <= at <= end,
                    program_of(ops@, new) + greedy_plan(old, new, at as int, pending as int)
                        == greedy_plan(old, new, 0, 0),
                    copied == copied_len(program_of(ops@, new)),
                    forall|k: int| 0 <= k < ops@.len() ==> (#[trigger] ops@[k]).fits(new),
                decreases end - at,
            {
                let ghost chosen = program_of(ops@, new);
                match index.longest(old_data, new_data, at) {
                    Some((offset, len)) => {
                        let ghost copy = Instruction::Copy { offset: offset as nat, len: len as nat };
                        let ghost front = literal_run(new, pending as int, at as int);
                        proof {
                            lemma_best_match(old, new, at as int, old.len());
                            lemma_match_len_bounds(old, offset as int, new, at as int);
                        }
                        if pending < at {
                            ops.push(DeltaOp { ins: Optype::Data, begin: pending, len: at - pending });
                        }
                        proof {
                            assert(program_of(ops@, new) =~= chosen + front);
                            assert(copied_len(chosen + front) == copied) by {
                                if pending < at {
                                    assert((chosen + front).drop_last() =~= chosen);
                                } else {
                                    assert(chosen + front =~= chosen);
                                }
                            }
                        }
                        ops.push(DeltaOp { ins: Optype::Copy, begin: offset, len });
                        proof {
                            let rest = greedy_plan(old, new, at + len, at + len);
                            assert(program_of(ops@, new) =~= (chosen + front).push(copy));
                            assert(program_of(ops@, new).drop_last() =~= chosen + front);
                            assert(program_of(ops@, new) + rest =~= chosen + (front + seq![copy]
                                + rest));
                        }
                        copied = copied + len;
                        at = at + len;
                        pending = at;
                    },
                    None => {
                        at = at + 1;
                    },
                }
            }
            let ghost chosen = program_of(ops@, new);
            if pending < end {
                ops.push(DeltaOp { ins: Optype::Data, begin: pending, len: end - pending });
                proof {
                    assert(program_of(ops@, new).drop_last() =~= chosen);
                }
            }
            proof {
                assert(program_of(ops@, new) =~= chosen + literal_run(
                    new,
                    pending as int,
                    end as int,
                ));
            }
        }
        DeltaDiff { ops, old_data: slice_to_vec(old_data), new_data: slice_to_vec(new_data), ssam: copied }
    }

    /// Writes the chosen instructions out as a delta.
    pub fn encode(&self) -> (delta: Vec<u8>)
        ensures
            delta@ == encode_program(self.program()),
            delta@ == delta_bytes(self.base(), self.target()),
    {
        proof {
            use_type_invariant(self);
        }
        let ghost new = self.new_data@;
        let ghost program = program_of(self.ops@, new);
        let mut delta: Vec<u8> = Vec::new();
        let mut at: usize = 0;
        let size: usize = self.new_data.len();
        proof {
            assert(program.take(0) =~= Seq::<Instruction>::empty());
        }
        while at < self.ops.len()
            invariant
                at <= self.ops@.len(),
                new == self.new_data@,
                size == new.len(),
                program == program_of(self.ops@, new),
                forall|k: int| 0 <= k < self.ops@.len() ==> (#[trigger] self.ops@[k]).fits(new),
                delta@ == encode_program(program.take(at as int)),
            decreases self.ops@.len() - at,
        {
            let op: DeltaOp = self.ops[at];
            let ghost before = delta@;
            proof {
                assert(op.fits(new));
                assert(program.take(at + 1) =~= program.take(at as int).push(program[at as int]));
                lemma_encode_program_push(program.take(at as int), program[at as int]);
            }
            match op.ins {
                Optype::Copy => {
                    write_varint(&mut delta, 2 * (op.len as u128) + 1);
                    write_varint(&mut delta, op.begin as u128);
                    proof {
                        assert(delta@ =~= before + encode_instruction(program[at as int]));
                    }
                },
                Optype::Data => {
                    write_varint(&mut delta, 2 * (op.len as u128));
                    append_range(&mut delta, self.new_data.as_slice(), op.begin, op.begin + op.len);
                    proof {
                        assert(delta@ =~= before + encode_instruction(program[at as int]));
                    }
                },
            }
            at += 1;
        }
        proof {
            assert(program.take(at as int) =~= program);
        }
        delta
    }

    /// The share of the target that the copies supply.
    pub fn get_ssam_rate(&self) -> (rate: Similarity)
        ensures
            (rate.matched as nat, rate.total as nat) == similarity(self.base(), self.target()),
            rate.matched <= rate.total,
            rate.total > 0,
    {
        proof {
            use_type_invariant(self);
            lemma_similarity(self.old_data@, self.new_data@);
        }
        if self.new_data.len() == 0 {
            Similarity { matched: 1, total: 1 }
        } else {
            Similarity { matched: self.ssam, total: self.new_data.len() }
        }
    }
}

} // verus!
