//! The delta engine: a delta describes one byte string as copies from a base
//! and literal runs, and applying it to the base gives the byte string back.

pub mod decode;
pub mod encode;
pub mod index;
pub mod instruction;
pub mod matching;
pub mod plan;

use crate::delta::encode::{DeltaDiff, Similarity};
use crate::delta::instruction::apply_delta;
use crate::delta::plan::{delta_bytes, lemma_round_trip, lemma_similarity, similarity};
use crate::errors::DecodeError;
use vstd::prelude::*;

verus! {

/// Makes the delta that turns `old_data` into `new_data`. Applying it to
/// `old_data` gives `new_data` back.
pub fn delta_encode(old_data: &[u8], new_data: &[u8]) -> (delta: Vec<u8>)
    ensures
        delta@ == delta_bytes(old_data@, new_data@),
        apply_delta(old_data@, delta@) == Ok::<Seq<u8>, DecodeError>(new_data@),
{
    proof {
        lemma_round_trip(old_data@, new_data@);
    }
    let differ = DeltaDiff::new(old_data, new_data);
    differ.encode()
}

/// The share of `new_data` that the delta against `old_data` copies rather
/// than carries: a fraction between nothing and one whole. It is one whole
/// where the two are equal, and nothing where `old_data` is empty and
/// `new_data` is not.
pub fn delta_encode_rate(old_data: &[u8], new_data: &[u8]) -> (rate: Similarity)
    ensures
        (rate.matched as nat, rate.total as nat) == similarity(old_data@, new_data@),
        rate.matched <= rate.total,
        rate.total > 0,
        old_data@ == new_data@ ==> rate.matched == rate.total,
        old_data@.len() == 0 && new_data@.len() > 0 ==> rate.matched == 0,
{
    proof {
        lemma_similarity(old_data@, new_data@);
    }
    let differ = DeltaDiff::new(old_data, new_data);
    differ.get_ssam_rate()
}

} // verus!
