//! Matches between a base and a target: how far two byte strings agree from
//! a pair of positions, and the longest such run over all offsets of the
//! base.

use vstd::prelude::*;

verus! {

/// The shortest run of the base that is worth a copy instruction. A shorter
/// match is written out as literal bytes.
pub const MIN_COPY: usize = 4;

/// A run of the base: where it starts and how long it is.
pub struct Match {
    pub offset: nat,
    pub len: nat,
}

/// The number of bytes on which `old` from `i` and `new` from `j` agree
/// before they first differ or one of them ends.
pub open spec fn match_len(old: Seq<u8>, i: int, new: Seq<u8>, j: int) -> nat
    decreases old.len() - i,
{
    if 0 <= i < old.len() && 0 <= j < new.len() && old[i] == new[j] {
        1 + match_len(old, i + 1, new, j + 1)
    } else {
        0
    }
}

/// The longest match for `new` from `j` among the offsets of `old` below
/// `limit`, and of several equally long ones the earliest. With no offset
/// that matches a single byte it is the empty match at offset 0.
pub open spec fn best_match(old: Seq<u8>, new: Seq<u8>, j: int, limit: nat) -> Match
    decreases limit,
{
    if limit == 0 {
        Match { offset: 0, len: 0 }
    } else {
        let before = best_match(old, new, j, (limit - 1) as nat);
        let here = match_len(old, limit - 1, new, j);
        if here > before.len {
            Match { offset: (limit - 1) as nat, len: here }
        } else {
            before
        }
    }
}

/// The longest match for `new` from `j` anywhere in `old`, the earliest of
/// several.
pub open spec fn longest_match(old: Seq<u8>, new: Seq<u8>, j: int) -> Match {
    best_match(old, new, j, old.len())
}

/// A match counts only from `MIN_COPY` bytes on.
pub open spec fn usable(found: Match) -> Option<Match> {
    if found.len >= MIN_COPY {
        Some(found)
    } else {
        None
    }
}

/// A match ends, at the latest, where either byte string ends.
pub proof fn lemma_match_len_bounds(old: Seq<u8>, i: int, new: Seq<u8>, j: int)
    requires
        0 <= i <= old.len(),
        0 <= j <= new.len(),
    ensures
        i + match_len(old, i, new, j) <= old.len(),
        j + match_len(old, i, new, j) <= new.len(),
    decreases old.len() - i,
{
    if i < old.len() && j < new.len() && old[i] == new[j] {
        lemma_match_len_bounds(old, i + 1, new, j + 1);
    }
}

/// Within a match the two byte strings hold the same bytes.
pub proof fn lemma_match_agrees(old: Seq<u8>, i: int, new: Seq<u8>, j: int, len: nat)
    requires
        0 <= i <= old.len(),
        0 <= j <= new.len(),
        len <= match_len(old, i, new, j),
    ensures
        i + len <= old.len(),
        j + len <= new.len(),
        old.subrange(i, i + len) == new.subrange(j, j + len),
    decreases len,
{
    if len > 0 {
        lemma_match_agrees(old, i + 1, new, j + 1, (len - 1) as nat);
        assert(old.subrange(i, i + len) =~= seq![old[i]] + old.subrange(i + 1, i + len));
        assert(new.subrange(j, j + len) =~= seq![new[j]] + new.subrange(j + 1, j + len));
    } else {
        assert(old.subrange(i, i + len) =~= new.subrange(j, j + len));
    }
}

/// What `best_match` picks: the match at an offset below the limit, or the
/// empty match at offset 0; at least as long as the match at any offset
/// below the limit, and strictly longer than the match at any earlier
/// offset.
pub proof fn lemma_best_match(old: Seq<u8>, new: Seq<u8>, j: int, limit: nat)
    ensures
        ({
            let found = best_match(old, new, j, limit);
            &&& found.len > 0 ==> found.offset < limit && found.len == match_len(
                old,
                found.offset as int,
                new,
                j,
            )
            &&& found.len == 0 ==> found.offset == 0
            &&& forall|i: int| 0 <= i < limit ==> match_len(old, i, new, j) <= found.len
            &&& forall|i: int| 0 <= i < found.offset ==> match_len(old, i, new, j) < found.len
        }),
    decreases limit,
{
    if limit > 0 {
        lemma_best_match(old, new, j, (limit - 1) as nat);
    }
}

/// Offsets at which no longer match starts leave the best match as it was.
pub proof fn lemma_best_match_stays(old: Seq<u8>, new: Seq<u8>, j: int, from: nat, to: nat)
    requires
        from <= to,
        forall|i: int|
            from <= i < to ==> match_len(old, i, new, j) <= best_match(old, new, j, from).len,
    ensures
        best_match(old, new, j, to) == best_match(old, new, j, from),
    decreases to - from,
{
    if from < to {
        lemma_best_match_stays(old, new, j, from, (to - 1) as nat);
    }
}

/// Offsets at which no usable match starts leave the usable best match as
/// it was.
pub proof fn lemma_best_match_skips(old: Seq<u8>, new: Seq<u8>, j: int, from: nat, to: nat)
    requires
        from <= to,
        forall|i: int| from <= i < to ==> match_len(old, i, new, j) < MIN_COPY,
    ensures
        usable(best_match(old, new, j, to)) == usable(best_match(old, new, j, from)),
    decreases to - from,
{
    if from < to {
        lemma_best_match_skips(old, new, j, from, (to - 1) as nat);
    }
}

} // verus!
