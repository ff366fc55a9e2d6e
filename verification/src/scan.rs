//! Searching byte slices: the first occurrence of one byte, and whether one
//! slice occurs inside another.
use vstd::prelude::*;
use crate::text::{first_index, occurs_at, occurs_in};

verus! {

/// `first_index` stays within the sequence, passes over nothing that equals
/// `mark`, and stops on `mark` unless it reaches the end.
pub proof fn lemma_first_index<T>(items: Seq<T>, mark: T)
    ensures
        first_index(items, mark) <= items.len(),
        forall|j: int| 0 <= j < first_index(items, mark) ==> items[j] != mark,
        first_index(items, mark) < items.len() ==> items[first_index(items, mark) as int] == mark,
    decreases items.len(),
{
    if items.len() > 0 && items[0] != mark {
        let rest = items.drop_first();
        lemma_first_index(rest, mark);
        assert forall|j: int| 0 <= j < first_index(items, mark) implies items[j] != mark by {
            if j > 0 {
                assert(items[j] == rest[j - 1]);
            }
        }
    }
}

/// A position with nothing equal to `mark` before it, which holds `mark` or
/// is the end, is the one that `first_index` gives.
pub proof fn lemma_first_index_is<T>(items: Seq<T>, mark: T, at: int)
    requires
        0 <= at <= items.len(),
        forall|j: int| 0 <= j < at ==> items[j] != mark,
        at < items.len() ==> items[at] == mark,
    ensures
        first_index(items, mark) == at,
{
    lemma_first_index(items, mark);
    let found: int = first_index(items, mark) as int;
    if found < at {
        assert(items[found] != mark);
    } else if at < found {
        assert(items[at] == mark);
    }
}

/// Finds the first `mark` in `bytes`; gives the length of `bytes` where there
/// is none.
pub fn find_byte(bytes: &[u8], mark: u8) -> (at: usize)
    ensures
        at == first_index(bytes@, mark),
{
    let mut at: usize = 0;
    while at < bytes.len() && bytes[at] != mark
        invariant
            at <= bytes.len(),
            forall|j: int| 0 <= j < at ==> bytes@[j] != mark,
        decreases bytes.len() - at,
    {
        at += 1;
    }
    proof {
        lemma_first_index_is(bytes@, mark, at as int);
    }
    at
}

/// Tells whether `needle` stands in `hay` at position `at`.
pub fn stands_at(needle: &[u8], hay: &[u8], at: usize) -> (yes: bool)
    requires
        at + needle.len() <= hay.len(),
    ensures
        yes == occurs_at(needle@, hay@, at as int),
{
    let mut k: usize = 0;
    while k < needle.len()
        invariant
            k <= needle.len(),
            at + needle.len() <= hay.len(),
            forall|j: int| 0 <= j < k ==> hay@[at + j] == needle@[j],
        decreases needle.len() - k,
    {
        if hay[at + k] != needle[k] {
            proof {
                let piece = hay@.subrange(at as int, at + needle.len());
                assert(piece[k as int] != needle@[k as int]);
            }
            return false;
        }
        k += 1;
    }
    assert(hay@.subrange(at as int, at + needle.len()) =~= needle@);
    true
}

/// Tells whether `needle` occurs in `hay`. An empty `needle` occurs in every
/// `hay`.
pub fn occurs(needle: &[u8], hay: &[u8]) -> (yes: bool)
    ensures
        yes == occurs_in(needle@, hay@),
{
    if needle.len() > hay.len() {
        return false;
    }
    let last: usize = hay.len() - needle.len();
    let mut at: usize = 0;
    while !stands_at(needle, hay, at)
        invariant
            last == hay.len() - needle.len(),
            at <= last,
            forall|j: int| 0 <= j < at ==> !occurs_at(needle@, hay@, j),
        decreases last - at,
    {
        if at == last {
            return false;
        }
        at += 1;
    }
    true
}

} // verus!
