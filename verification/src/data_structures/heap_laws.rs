//! What holds of a heap over any run of `add` and `pop` calls.
//!
//! A run is written down as the heap before the first call, then for each
//! call what was called, what it returned and the heap it left. The lemmas
//! here speak of every run in which each call did what its contract says.

use vstd::prelude::*;
use super::heap::heap_ordered;
use super::heap::lemma_root_is_best;
use super::heap::strict_weak_order;
use super::heap::Heap;
use super::heap::MaxFirst;
use super::heap::MinFirst;
use super::heap::Order;

verus! {

/// One call on a heap.
pub enum Call<T> {
    /// `add` with this value.
    Add(T),
    /// `pop`.
    Pop,
}

/// The `i`-th call of a run did what its contract says: it led from
/// `heaps[i]` to `heaps[i + 1]` and, if it was a `pop`, returned `returned[i]`.
pub open spec fn step_holds<T, O: Order<T>>(
    heaps: Seq<Heap<T, O>>,
    calls: Seq<Call<T>>,
    returned: Seq<Option<T>>,
    i: int,
) -> bool {
    match calls[i] {
        Call::Add(val) => heaps[i].adds(val, heaps[i + 1]) && returned[i] is None,
        Call::Pop => heaps[i].pops(returned[i], heaps[i + 1]),
    }
}

/// A run of calls from a heap in good order, each of which did what its
/// contract says.
pub open spec fn is_run<T, O: Order<T>>(
    heaps: Seq<Heap<T, O>>,
    calls: Seq<Call<T>>,
    returned: Seq<Option<T>>,
) -> bool {
    &&& heaps.len() == calls.len() + 1
    &&& returned.len() == calls.len()
    &&& heaps[0].well_formed()
    &&& forall|i: int| 0 <= i < calls.len() ==> #[trigger] step_holds(heaps, calls, returned, i)
}

/// The calls from position `from` up to `to` are all `add`s.
pub open spec fn only_adds<T>(calls: Seq<Call<T>>, from: int, to: int) -> bool {
    forall|i: int| from <= i < to ==> #[trigger] calls[i] is Add
}

/// The calls from position `from` up to `to` are all `pop`s.
pub open spec fn only_pops<T>(calls: Seq<Call<T>>, from: int, to: int) -> bool {
    forall|i: int| from <= i < to ==> #[trigger] calls[i] is Pop
}

/// The number of `add` calls among the first `n` calls.
pub open spec fn additions<T>(calls: Seq<Call<T>>, n: int) -> int
    decreases n,
{
    if n <= 0 {
        0
    } else {
        additions(calls, n - 1) + if calls[n - 1] is Add {
            1int
        } else {
            0int
        }
    }
}

/// The number of `pop` calls among the first `n` calls that returned a value.
pub open spec fn removals<T>(calls: Seq<Call<T>>, returned: Seq<Option<T>>, n: int) -> int
    decreases n,
{
    if n <= 0 {
        0
    } else {
        removals(calls, returned, n - 1) + if calls[n - 1] is Pop && returned[n - 1] is Some {
            1int
        } else {
            0int
        }
    }
}

/// After every call of a run the heap keeps its ranking rule, and under a
/// strict weak order no node is ranked above its parent.
pub proof fn lemma_run_keeps_heap_property<T, O: Order<T>>(
    heaps: Seq<Heap<T, O>>,
    calls: Seq<Call<T>>,
    returned: Seq<Option<T>>,
    n: int,
)
    requires
        is_run(heaps, calls, returned),
        0 <= n <= calls.len(),
    ensures
        heaps[n].order() == heaps[0].order(),
        heaps[n].well_formed(),
        strict_weak_order(heaps[0].order()) ==> heap_ordered(heaps[n].order(), heaps[n]@),
    decreases n,
{
    if n > 0 {
        lemma_run_keeps_heap_property(heaps, calls, returned, n - 1);
        assert(step_holds(heaps, calls, returned, n - 1));
    }
}

/// After `n` calls the heap holds as many values as it held at first, plus
/// one for each `add`, minus one for each `pop` that returned a value.
pub proof fn lemma_run_counts<T, O: Order<T>>(
    heaps: Seq<Heap<T, O>>,
    calls: Seq<Call<T>>,
    returned: Seq<Option<T>>,
    n: int,
)
    requires
        is_run(heaps, calls, returned),
        0 <= n <= calls.len(),
    ensures
        heaps[n]@.len() == heaps[0]@.len() + additions(calls, n) - removals(calls, returned, n),
    decreases n,
{
    if n > 0 {
        lemma_run_counts(heaps, calls, returned, n - 1);
        assert(step_holds(heaps, calls, returned, n - 1));
    }
}

/// Every `pop` on an empty heap returns nothing and leaves the heap empty,
/// however often it is repeated.
pub proof fn lemma_empty_heap_stays_empty<T, O: Order<T>>(
    heaps: Seq<Heap<T, O>>,
    calls: Seq<Call<T>>,
    returned: Seq<Option<T>>,
    n: int,
)
    requires
        is_run(heaps, calls, returned),
        heaps[0]@.len() == 0,
        0 <= n <= calls.len(),
        only_pops(calls, 0, n),
    ensures
        heaps[n]@ == heaps[0]@,
        heaps[n].order() == heaps[0].order(),
        forall|i: int| 0 <= i < n ==> (#[trigger] returned[i]) is None,
    decreases n,
{
    if n > 0 {
        lemma_empty_heap_stays_empty(heaps, calls, returned, n - 1);
        assert(step_holds(heaps, calls, returned, n - 1));
        assert(calls[n - 1] is Pop);
    }
}

/// A value that is in the heap after some `pop`s was in it before them.
proof fn lemma_pops_add_nothing<T, O: Order<T>>(
    heaps: Seq<Heap<T, O>>,
    calls: Seq<Call<T>>,
    returned: Seq<Option<T>>,
    from: int,
    to: int,
    val: T,
)
    requires
        is_run(heaps, calls, returned),
        0 <= from <= to <= calls.len(),
        only_pops(calls, from, to),
        heaps[to]@.to_multiset().count(val) > 0,
    ensures
        heaps[from]@.to_multiset().count(val) > 0,
    decreases to - from,
{
    broadcast use vstd::multiset::group_multiset_axioms;

    if from < to {
        assert(step_holds(heaps, calls, returned, to - 1));
        assert(calls[to - 1] is Pop);
        lemma_pops_add_nothing(heaps, calls, returned, from, to - 1, val);
    }
}

/// Of two values that came out of a run of `pop`s, the later is not ranked
/// above the earlier, if the rule is a strict weak order.
pub proof fn lemma_pops_come_out_ranked<T, O: Order<T>>(
    heaps: Seq<Heap<T, O>>,
    calls: Seq<Call<T>>,
    returned: Seq<Option<T>>,
    i: int,
    j: int,
)
    requires
        is_run(heaps, calls, returned),
        strict_weak_order(heaps[0].order()),
        0 <= i < j < calls.len(),
        only_pops(calls, i, j + 1),
        returned[i] is Some,
        returned[j] is Some,
    ensures
        !heaps[0].order().ranks(returned[j]->0, returned[i]->0),
{
    broadcast use vstd::seq_lib::to_multiset_contains;

    let first = returned[i]->0;
    let later = returned[j]->0;
    let order = heaps[0].order();
    assert(calls[i] is Pop && calls[j] is Pop);
    assert(step_holds(heaps, calls, returned, i));
    assert(step_holds(heaps, calls, returned, j));
    assert(heaps[j]@[0] == later);
    assert(heaps[j]@.contains(later));
    lemma_pops_add_nothing(heaps, calls, returned, i, j, later);
    assert(heaps[i]@.contains(later));
    let k = choose|k: int| 0 <= k < heaps[i]@.len() && heaps[i]@[k] == later;
    lemma_run_keeps_heap_property(heaps, calls, returned, i);
    lemma_root_is_best(order, heaps[i]@, k);
}

/// Among the first `n` calls of a run that begins with `fill` calls of `add`
/// and goes on with `pop`s, the `add`s are the first `fill` or all `n`.
proof fn lemma_additions_of_fill<T>(calls: Seq<Call<T>>, fill: int, n: int)
    requires
        0 <= fill <= calls.len(),
        0 <= n <= calls.len(),
        only_adds(calls, 0, fill),
        only_pops(calls, fill, calls.len() as int),
    ensures
        additions(calls, n) == if n <= fill {
            n
        } else {
            fill
        },
    decreases n,
{
    if n > 0 {
        lemma_additions_of_fill(calls, fill, n - 1);
        if n - 1 < fill {
            assert(calls[n - 1] is Add);
        } else {
            assert(calls[n - 1] is Pop);
        }
    }
}

/// When `fill` values are added to an empty heap and `pop` is then called
/// `fill` times, every one of these `pop`s returns a value and the last
/// leaves the heap empty.
pub proof fn lemma_fill_then_drain<T, O: Order<T>>(
    heaps: Seq<Heap<T, O>>,
    calls: Seq<Call<T>>,
    returned: Seq<Option<T>>,
    fill: int,
    n: int,
)
    requires
        is_run(heaps, calls, returned),
        heaps[0]@.len() == 0,
        0 <= fill,
        calls.len() == 2 * fill,
        only_adds(calls, 0, fill),
        only_pops(calls, fill, 2 * fill),
        0 <= n <= 2 * fill,
    ensures
        removals(calls, returned, n) == if n <= fill {
            0
        } else {
            n - fill
        },
        heaps[n]@.len() == if n <= fill {
            n
        } else {
            2 * fill - n
        },
        forall|i: int| fill <= i < n ==> (#[trigger] returned[i]) is Some,
    decreases n,
{
    lemma_additions_of_fill(calls, fill, n);
    lemma_run_counts(heaps, calls, returned, n);
    if n > 0 {
        lemma_fill_then_drain(heaps, calls, returned, fill, n - 1);
        assert(step_holds(heaps, calls, returned, n - 1));
        if n - 1 < fill {
            assert(calls[n - 1] is Add);
        } else {
            assert(calls[n - 1] is Pop);
        }
    }
}

/// A heap built by `new_max` hands out its values from the largest down:
/// no value that a run of `pop`s returns is larger than one returned before.
pub proof fn lemma_max_heap_pops_never_rise(
    heaps: Seq<Heap<i32, MaxFirst>>,
    calls: Seq<Call<i32>>,
    returned: Seq<Option<i32>>,
    i: int,
    j: int,
)
    requires
        is_run(heaps, calls, returned),
        0 <= i < j < calls.len(),
        only_pops(calls, i, j + 1),
        returned[i] is Some,
        returned[j] is Some,
    ensures
        returned[j]->0 <= returned[i]->0,
{
    lemma_pops_come_out_ranked(heaps, calls, returned, i, j);
}

/// A heap built by `new_min` hands out its values from the smallest up:
/// no value that a run of `pop`s returns is smaller than one returned before.
pub proof fn lemma_min_heap_pops_never_fall(
    heaps: Seq<Heap<i32, MinFirst>>,
    calls: Seq<Call<i32>>,
    returned: Seq<Option<i32>>,
    i: int,
    j: int,
)
    requires
        is_run(heaps, calls, returned),
        0 <= i < j < calls.len(),
        only_pops(calls, i, j + 1),
        returned[i] is Some,
        returned[j] is Some,
    ensures
        returned[j]->0 >= returned[i]->0,
{
    lemma_pops_come_out_ranked(heaps, calls, returned, i, j);
}

} // verus!
