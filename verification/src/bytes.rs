//! Small verified tools on byte strings.

use vstd::prelude::*;

verus! {

/// The position of the first `byte` in `data`, if there is one.
pub open spec fn find(data: Seq<u8>, byte: u8) -> Option<nat>
    decreases data.len(),
{
    if data.len() == 0 {
        None
    } else if data[0] == byte {
        Some(0)
    } else {
        match find(data.skip(1), byte) {
            Some(at) => Some(at + 1),
            None => None,
        }
    }
}

/// What `find` returns: a position that holds `byte` and has none before
/// it, or `None` where no position holds `byte`.
pub proof fn lemma_find(data: Seq<u8>, byte: u8)
    ensures
        match find(data, byte) {
            Some(at) => at < data.len() && data[at as int] == byte && forall|i: int|
                0 <= i < at ==> data[i] != byte,
            None => forall|i: int| 0 <= i < data.len() ==> data[i] != byte,
        },
    decreases data.len(),
{
    if data.len() > 0 && data[0] != byte {
        let rest = data.skip(1);
        lemma_find(rest, byte);
        match find(rest, byte) {
            Some(at) => {
                assert forall|i: int| 0 <= i < at + 1 implies data[i] != byte by {
                    if i > 0 {
                        assert(rest[i - 1] == data[i]);
                    }
                }
            },
            None => {
                assert forall|i: int| 0 <= i < data.len() implies data[i] != byte by {
                    if i > 0 {
                        assert(rest[i - 1] == data[i]);
                    }
                }
            },
        }
    }
}

/// The first position that holds `byte` is what `find` returns.
pub proof fn lemma_find_at(data: Seq<u8>, byte: u8, at: int)
    requires
        0 <= at < data.len(),
        data[at] == byte,
        forall|i: int| 0 <= i < at ==> data[i] != byte,
    ensures
        find(data, byte) == Some(at as nat),
{
    lemma_find(data, byte);
}

/// Where no position holds `byte`, `find` returns `None`.
pub proof fn lemma_find_nowhere(data: Seq<u8>, byte: u8)
    requires
        forall|i: int| 0 <= i < data.len() ==> data[i] != byte,
    ensures
        find(data, byte) is None,
{
    lemma_find(data, byte);
}

/// Finds the first `byte` in `data` at or behind `from`.
pub fn find_byte(data: &[u8], from: usize, byte: u8) -> (found: Option<usize>)
    requires
        from <= data@.len(),
    ensures
        match found {
            Some(at) => from <= at < data@.len() && find(data@.skip(from as int), byte) == Some(
                (at - from) as nat,
            ),
            None => find(data@.skip(from as int), byte) is None,
        },
{
    let mut at: usize = from;
    while at < data.len()
        invariant
            from <= at <= data@.len(),
            forall|i: int| from <= i < at ==> data@[i] != byte,
        decreases data@.len() - at,
    {
        if data[at] == byte {
            proof {
                lemma_find_at(data@.skip(from as int), byte, at - from);
            }
            return Some(at);
        }
        at += 1;
    }
    proof {
        lemma_find_nowhere(data@.skip(from as int), byte);
    }
    None
}

/// Tells whether `byte` occurs nowhere in `data`.
pub fn lacks_byte(data: &[u8], byte: u8) -> (lacks: bool)
    ensures
        lacks == (forall|i: int| 0 <= i < data@.len() ==> data@[i] != byte),
{
    proof {
        assert(data@.skip(0) =~= data@);
        lemma_find(data@, byte);
    }
    find_byte(data, 0, byte).is_none()
}

/// Appends `source[from..to]` to `out`.
pub fn append_range(out: &mut Vec<u8>, source: &[u8], from: usize, to: usize)
    requires
        from <= to <= source@.len(),
    ensures
        final(out)@ == old(out)@ + source@.subrange(from as int, to as int),
{
    let mut at: usize = from;
    while at < to
        invariant
            from <= at <= to <= source@.len(),
            out@ == old(out)@ + source@.subrange(from as int, at as int),
        decreases to - at,
    {
        proof {
            assert(source@.subrange(from as int, at + 1) =~= source@.subrange(
                from as int,
                at as int,
            ).push(source@[at as int]));
        }
        out.push(source[at]);
        at += 1;
    }
}

/// Appends the whole of `source` to `out`.
pub fn append_all(out: &mut Vec<u8>, source: &[u8])
    ensures
        final(out)@ == old(out)@ + source@,
{
    let end: usize = source.len();
    proof {
        assert(source@.subrange(0, end as int) =~= source@);
    }
    append_range(out, source, 0, end);
}

/// A copy of `source[from..to]`.
pub fn copy_range(source: &[u8], from: usize, to: usize) -> (copy: Vec<u8>)
    requires
        from <= to <= source@.len(),
    ensures
        copy@ == source@.subrange(from as int, to as int),
{
    let mut copy: Vec<u8> = Vec::new();
    append_range(&mut copy, source, from, to);
    proof {
        assert(Seq::<u8>::empty() + source@.subrange(from as int, to as int) =~= source@.subrange(
            from as int,
            to as int,
        ));
    }
    copy
}

/// Tells whether two byte strings hold the same bytes.
pub fn same_bytes(left: &[u8], right: &[u8]) -> (same: bool)
    ensures
        same == (left@ == right@),
{
    if left.len() != right.len() {
        return false;
    }
    let mut at: usize = 0;
    while at < left.len()
        invariant
            left@.len() == right@.len(),
            at <= left@.len(),
            forall|k: int| 0 <= k < at ==> left@[k] == right@[k],
        decreases left@.len() - at,
    {
        if left[at] != right[at] {
            return false;
        }
        at += 1;
    }
    proof {
        assert(left@ =~= right@);
    }
    true
}

} // verus!
