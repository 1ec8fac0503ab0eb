//! Bubble sort on a vector of integers.

use vstd::prelude::*;
use crate::sequences::lemma_exchanged_keeps_values;
use crate::std_shims::swap_elements;

verus! {

/// The values of `s` from position `from` up to `to` never decrease.
pub open spec fn ascending_between(s: Seq<i32>, from: int, to: int) -> bool {
    forall|a: int, b: int| from <= a <= b < to ==> s[a] <= s[b]
}

/// The values of `s` never decrease from one position to the next.
pub open spec fn ascending(s: Seq<i32>) -> bool {
    ascending_between(s, 0, s.len() as int)
}

/// No value of `s` before position `cut` exceeds one at or after it.
pub open spec fn split_at(s: Seq<i32>, cut: int) -> bool {
    forall|a: int, b: int| 0 <= a < cut <= b < s.len() ==> s[a] <= s[b]
}

/// Sorts `arr` into ascending order. Each pass walks the unsorted front part
/// and exchanges neighbours that are out of order, which carries the largest
/// value of that part to its end; the passes stop after one without an
/// exchange.
pub fn bubble_sort(arr: &mut Vec<i32>)
    ensures
        ascending(final(arr)@),
        final(arr)@.to_multiset() == old(arr)@.to_multiset(),
        final(arr)@.len() == old(arr)@.len(),
{
    let mut max = arr.len();
    let mut sorted = false;

    while !sorted
        invariant
            arr@.to_multiset() == old(arr)@.to_multiset(),
            arr@.len() == old(arr)@.len(),
            max <= arr@.len(),
            ascending_between(arr@, max as int, arr@.len() as int),
            split_at(arr@, max as int),
            sorted ==> ascending(arr@),
        decreases
                max + if sorted {
                    0int
                } else {
                    1int
                },
    {
        sorted = true;
        let mut i: usize = 1;
        while i < max
            invariant
                1 <= i,
                max >= 1 ==> i <= max,
                arr@.to_multiset() == old(arr)@.to_multiset(),
                arr@.len() == old(arr)@.len(),
                max <= arr@.len(),
                ascending_between(arr@, max as int, arr@.len() as int),
                split_at(arr@, max as int),
                forall|k: int| 0 <= k < i <= max ==> #[trigger] arr@[k] <= arr@[i - 1],
                sorted ==> ascending_between(arr@, 0, i as int),
                !sorted ==> max >= 2,
            decreases max - i,
        {
            if arr[i - 1] > arr[i] {
                proof {
                    lemma_exchanged_keeps_values(arr@, i - 1, i as int);
                }
                swap_elements(arr, i - 1, i);
                sorted = false;
            }
            i += 1;
        }

        if max > 0 {
            max -= 1;
        }
    }
}

} // verus!
