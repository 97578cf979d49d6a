//! Counting the elements of a sequence that satisfy a predicate, with the
//! lemmas the board engine needs to track such counts across point updates.

use vstd::prelude::*;

verus! {

/// 1 for a true condition, 0 for a false one; the building block of the
/// neighbor-mine sums.
pub open spec fn b2i(b: bool) -> int {
    if b {
        1
    } else {
        0
    }
}

/// How many elements of `s` satisfy `f`.
pub open spec fn count_where<T>(s: Seq<T>, f: spec_fn(T) -> bool) -> int
    decreases s.len(),
{
    if s.len() == 0 {
        0
    } else {
        count_where(s.drop_last(), f) + b2i(f(s.last()))
    }
}

/// The count is between 0 and the length of the sequence.
pub proof fn lemma_count_bounds<T>(s: Seq<T>, f: spec_fn(T) -> bool)
    ensures
        0 <= count_where(s, f) <= s.len(),
    decreases s.len(),
{
    if s.len() > 0 {
        lemma_count_bounds(s.drop_last(), f);
    }
}

/// Updating one element changes the count by exactly the difference of the
/// old and new element's predicate values.
pub proof fn lemma_count_update<T>(s: Seq<T>, f: spec_fn(T) -> bool, i: int, v: T)
    requires
        0 <= i < s.len(),
    ensures
        count_where(s.update(i, v), f) == count_where(s, f) - b2i(f(s[i])) + b2i(f(v)),
    decreases s.len(),
{
    let t = s.update(i, v);
    if i == s.len() - 1 {
        assert(t.drop_last() =~= s.drop_last());
    } else {
        assert(t.drop_last() =~= s.drop_last().update(i, v));
        lemma_count_update(s.drop_last(), f, i, v);
    }
}

/// A sequence in which no element satisfies `f` has count 0.
pub proof fn lemma_count_none<T>(s: Seq<T>, f: spec_fn(T) -> bool)
    requires
        forall|k: int| 0 <= k < s.len() ==> !f(#[trigger] s[k]),
    ensures
        count_where(s, f) == 0,
    decreases s.len(),
{
    if s.len() > 0 {
        lemma_count_none(s.drop_last(), f);
    }
}

} // verus!
