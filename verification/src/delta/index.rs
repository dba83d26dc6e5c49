//! An index of the base by the content of its windows, which finds the
//! longest match for a position of the target without comparing it with every
//! offset of the base.
//!
//! Every run of `MIN_COPY` bytes of the base is a window. The windows are
//! spread over slots by a key computed from their bytes, and the windows of
//! one slot are chained in rising order of their offsets. A match of at least
//! `MIN_COPY` bytes begins with a window equal to that of the target, so it
//! can only begin at an offset in the slot of the target's window.

use crate::delta::matching::{
    best_match, lemma_best_match_skips, lemma_best_match_stays, lemma_match_agrees,
    lemma_match_len_bounds, longest_match, match_len, usable, Match, MIN_COPY,
};
use vstd::prelude::*;

verus! {

/// The number of windows of `old`.
pub open spec fn windows(old: Seq<u8>) -> nat {
    if old.len() >= MIN_COPY {
        (old.len() - MIN_COPY + 1) as nat
    } else {
        0
    }
}

/// The key of four bytes.
pub open spec fn mix(a: u8, b: u8, c: u8, d: u8) -> nat {
    (((a + 256 * b + 65536 * c + 16777216 * d) * 2654435761) % 4294967296 / 256) as nat
}

/// The slot, out of `slots`, of the window of `data` that starts at `at`.
pub open spec fn slot(data: Seq<u8>, at: int, slots: nat) -> nat {
    mix(data[at], data[at + 1], data[at + 2], data[at + 3]) % slots
}

/// Whether `found` is the first window of `old` at or behind `from` that
/// lies in `wanted`, with `usize::MAX` for "there is none".
pub open spec fn first_from(old: Seq<u8>, slots: nat, wanted: nat, from: int, found: usize) -> bool {
    if found == usize::MAX {
        forall|k: int| from <= k < windows(old) ==> slot(old, k, slots) != wanted
    } else {
        &&& from <= found < windows(old)
        &&& slot(old, found as int, slots) == wanted
        &&& forall|k: int| from <= k < found ==> slot(old, k, slots) != wanted
    }
}

/// The windows of a base, chained by slot.
pub struct ChunkIndex {
    heads: Vec<usize>,
    next: Vec<usize>,
}

/// Two positions that match on a whole window lie in the same slot.
pub proof fn lemma_match_shares_slot(old: Seq<u8>, i: int, new: Seq<u8>, j: int, slots: nat)
    requires
        0 <= i <= old.len(),
        0 <= j <= new.len(),
        match_len(old, i, new, j) >= MIN_COPY,
    ensures
        slot(old, i, slots) == slot(new, j, slots),
{
    lemma_match_agrees(old, i, new, j, 4);
    let a = old.subrange(i, i + 4);
    let b = new.subrange(j, j + 4);
    assert(a[0] == old[i] && a[1] == old[i + 1] && a[2] == old[i + 2] && a[3] == old[i + 3]);
    assert(b[0] == new[j] && b[1] == new[j + 1] && b[2] == new[j + 2] && b[3] == new[j + 3]);
}

/// Computes the slot of the window of `data` that starts at `at`.
pub fn slot_at(data: &[u8], at: usize, slots: usize) -> (found: usize)
    requires
        at + MIN_COPY <= data@.len(),
        slots > 0,
    ensures
        found == slot(data@, at as int, slots as nat),
        found < slots,
{
    let word: u64 = data[at] as u64 + 256 * (data[at + 1] as u64) + 65536 * (data[at + 2] as u64)
        + 16777216 * (data[at + 3] as u64);
    let key: u64 = (word * 2654435761) % 4294967296 / 256;
    (key as usize) % slots
}

/// Counts the bytes on which `old` from `i` and `new` from `j` agree.
pub fn common_len(old: &[u8], i: usize, new: &[u8], j: usize) -> (len: usize)
    requires
        i <= old@.len(),
        j <= new@.len(),
    ensures
        len == match_len(old@, i as int, new@, j as int),
{
    let old_end: usize = old.len();
    let new_end: usize = new.len();
    let mut len: usize = 0;
    while i + len < old_end && j + len < new_end && old[i + len] == new[j + len]
        invariant
            old_end == old@.len(),
            new_end == new@.len(),
            i + len <= old_end,
            j + len <= new_end,
            match_len(old@, i as int, new@, j as int) == len + match_len(
                old@,
                i + len,
                new@,
                j + len,
            ),
        decreases old_end - i - len,
    {
        len += 1;
    }
    len
}

impl ChunkIndex {
    /// Whether this is the index of `old`: every slot leads to its first
    /// window, and every window to the next one of its slot.
    pub closed spec fn wf(&self, old: Seq<u8>) -> bool {
        &&& self.heads@.len() >= 1
        &&& self.next@.len() == windows(old)
        &&& forall|b: int|
            0 <= b < self.heads@.len() ==> first_from(
                old,
                self.heads@.len(),
                b as nat,
                0,
                #[trigger] self.heads@[b],
            )
        &&& forall|i: int|
            0 <= i < self.next@.len() ==> first_from(
                old,
                self.heads@.len(),
                slot(old, i, self.heads@.len()),
                i + 1,
                #[trigger] self.next@[i],
            )
    }

    /// Indexes the windows of `old`.
    pub fn build(old: &[u8]) -> (index: ChunkIndex)
        ensures
            index.wf(old@),
    {
        let count: usize = if old.len() >= MIN_COPY {
            old.len() - MIN_COPY + 1
        } else {
            0
        };
        let slots: usize = if count == 0 {
            1
        } else {
            count
        };
        let mut heads: Vec<usize> = vec![usize::MAX; slots];
        let mut next: Vec<usize> = vec![usize::MAX; count];
        let mut at: usize = count;
        while at > 0
            invariant
                at <= count == windows(old@),
                heads@.len() == slots >= 1,
                next@.len() == count,
                forall|b: int|
                    0 <= b < slots ==> first_from(old@, slots as nat, b as nat, at as int, #[trigger] heads@[b]),
                forall|i: int|
                    at <= i < count ==> first_from(
                        old@,
                        slots as nat,
                        slot(old@, i, slots as nat),
                        i + 1,
                        #[trigger] next@[i],
                    ),
            decreases at,
        {
            at -= 1;
            let here: usize = slot_at(old, at, slots);
            let ghost before = heads@;
            let follower: usize = heads[here];
            next.set(at, follower);
            heads.set(here, at);
            proof {
                assert forall|b: int| 0 <= b < slots implies first_from(
                    old@,
                    slots as nat,
                    b as nat,
                    at as int,
                    #[trigger] heads@[b],
                ) by {
                    if b != here {
                        assert(heads@[b] == before[b]);
                        assert(first_from(old@, slots as nat, b as nat, at + 1, before[b]));
                    }
                }
            }
        }
        ChunkIndex { heads, next }
    }

    /// Finds the longest match of at least `MIN_COPY` bytes for `new` from
    /// `at`, as offset and length, the earliest of several equally long
    /// ones; `None` where `old` holds no match that long.
    pub fn longest(&self, old: &[u8], new: &[u8], at: usize) -> (found: Option<(usize, usize)>)
        requires
            self.wf(old@),
            at <= new@.len(),
        ensures
            usable(longest_match(old@, new@, at as int)) == (match found {
                Some((offset, len)) => Some(Match { offset: offset as nat, len: len as nat }),
                None => None,
            }),
    {
        let old_end: usize = old.len();
        if new.len() - at < MIN_COPY || old_end < MIN_COPY {
            proof {
                assert forall|i: int| 0 <= i < old_end implies match_len(old@, i, new@, at as int)
                    < MIN_COPY by {
                    lemma_match_len_bounds(old@, i, new@, at as int);
                }
                lemma_best_match_skips(old@, new@, at as int, 0, old_end as nat);
            }
            return None;
        }
        let slots: usize = self.heads.len();
        let wanted: usize = slot_at(new, at, slots);
        let most: usize = new.len() - at;
        let mut candidate: usize = self.heads[wanted];
        let mut best_offset: usize = 0;
        let mut best_len: usize = 0;
        let ghost mut scanned: nat = 0;
        while candidate != usize::MAX && best_len < most && best_len < old_end - candidate
            invariant
                self.wf(old@),
                old_end == old@.len() >= MIN_COPY,
                at + MIN_COPY <= new@.len(),
                most == new@.len() - at,
                slots == self.heads@.len(),
                wanted == slot(new@, at as int, slots as nat),
                scanned <= windows(old@),
                first_from(old@, slots as nat, wanted as nat, scanned as int, candidate),
                match usable(best_match(old@, new@, at as int, scanned)) {
                    Some(best) => best.offset == best_offset && best.len == best_len,
                    None => best_len == 0,
                },
            decreases windows(old@) - scanned,
        {
            proof {
                assert forall|i: int| scanned <= i < candidate implies match_len(
                    old@,
                    i,
                    new@,
                    at as int,
                ) < MIN_COPY by {
                    if match_len(old@, i, new@, at as int) >= MIN_COPY {
                        lemma_match_shares_slot(old@, i, new@, at as int, slots as nat);
                    }
                }
                lemma_best_match_skips(old@, new@, at as int, scanned, candidate as nat);
            }
            let len: usize = common_len(old, candidate, new, at);
            if len >= MIN_COPY && len > best_len {
                best_offset = candidate;
                best_len = len;
            }
            proof {
                scanned = (candidate + 1) as nat;
            }
            candidate = self.next[candidate];
        }
        proof {
            if candidate == usize::MAX {
                assert forall|i: int| scanned <= i < old_end implies match_len(
                    old@,
                    i,
                    new@,
                    at as int,
                ) < MIN_COPY by {
                    lemma_match_len_bounds(old@, i, new@, at as int);
                    if match_len(old@, i, new@, at as int) >= MIN_COPY {
                        lemma_match_shares_slot(old@, i, new@, at as int, slots as nat);
                    }
                }
                lemma_best_match_skips(old@, new@, at as int, scanned, old_end as nat);
            } else {
                // The best match so far reaches the end of the target, or is
                // as long as the base has room for from here on.
                assert forall|i: int| scanned <= i < old_end implies match_len(
                    old@,
                    i,
                    new@,
                    at as int,
                ) <= best_len by {
                    lemma_match_len_bounds(old@, i, new@, at as int);
                    if i < candidate && match_len(old@, i, new@, at as int) >= MIN_COPY {
                        lemma_match_shares_slot(old@, i, new@, at as int, slots as nat);
                    }
                }
                lemma_best_match_stays(old@, new@, at as int, scanned, old_end as nat);
            }
        }
        if best_len == 0 {
            None
        } else {
            Some((best_offset, best_len))
        }
    }
}

} // verus!
