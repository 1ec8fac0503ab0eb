//! Facts about exchanging two values of a sequence.

use vstd::prelude::*;
use vstd::seq_lib::to_multiset_contains;
use vstd::seq_lib::to_multiset_update;

verus! {

/// The sequence `s` with the values at positions `a` and `b` exchanged.
pub open spec fn exchanged<T>(s: Seq<T>, a: int, b: int) -> Seq<T> {
    s.update(a, s[b]).update(b, s[a])
}

/// Exchanging two values keeps the collection of values.
pub proof fn lemma_exchanged_keeps_values<T>(s: Seq<T>, a: int, b: int)
    requires
        0 <= a < s.len(),
        0 <= b < s.len(),
    ensures
        exchanged(s, a, b).to_multiset() == s.to_multiset(),
        exchanged(s, a, b).len() == s.len(),
{
    broadcast use vstd::multiset::group_multiset_axioms;

    let half = s.update(a, s[b]);
    to_multiset_update(s, a, s[b]);
    to_multiset_update(half, b, s[a]);
    to_multiset_contains(s, s[a]);
    to_multiset_contains(s, s[b]);
    assert(s.contains(s[a]));
    assert(s.contains(s[b]));
    assert(half[b] == s[b]);
    assert(exchanged(s, a, b).to_multiset() =~= s.to_multiset());
}

} // verus!
