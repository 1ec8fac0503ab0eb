//! An array-backed binary heap whose ranking rule is supplied by the caller.

use vstd::prelude::*;
use vstd::seq_lib::to_multiset_build;
use vstd::seq_lib::to_multiset_contains;
use vstd::seq_lib::to_multiset_remove;
use vstd::seq_lib::to_multiset_update;
use crate::sequences::exchanged;
use crate::sequences::lemma_exchanged_keeps_values;
use crate::std_shims::swap_elements;

verus! {

/// A ranking rule for values of type `T`: a strategy that a heap is built
/// with and consults whenever it compares two of its values.
pub trait Order<T> {
    /// Whether `a` ranks strictly above `b`. Unless an implementation says
    /// otherwise, nothing is known of the relation.
    open spec fn ranks(&self, a: T, b: T) -> bool {
        arbitrary()
    }

    /// Decides `ranks` on two values.
    fn outranks(&self, a: &T, b: &T) -> (r: bool)
        ensures
            r == self.ranks(*a, *b),
    ;
}

/// The rule is a strict weak order: it never ranks two values both ways
/// round, and "does not rank above" is transitive. Values that the rule
/// ranks neither way round are tied.
pub open spec fn strict_weak_order<T, O: Order<T>>(order: O) -> bool {
    &&& forall|a: T, b: T| #[trigger] order.ranks(a, b) ==> !order.ranks(b, a)
    &&& forall|a: T, b: T, c: T|
        !#[trigger] order.ranks(a, b) && !#[trigger] order.ranks(b, c) ==> !order.ranks(a, c)
}

/// Under a strict weak order no two values outrank each other.
pub proof fn lemma_asymmetric<T, O: Order<T>>(order: O, a: T, b: T)
    requires
        strict_weak_order(order),
        order.ranks(a, b),
    ensures
        !order.ranks(b, a),
{
}

/// Under a strict weak order, if `a` does not outrank `b` and `b` does not
/// outrank `c`, then `a` does not outrank `c`.
pub proof fn lemma_not_above_chains<T, O: Order<T>>(order: O, a: T, b: T, c: T)
    requires
        strict_weak_order(order),
        !order.ranks(a, b),
        !order.ranks(b, c),
    ensures
        !order.ranks(a, c),
{
}

/// Larger integers rank above smaller ones.
pub struct MaxFirst;

/// Smaller integers rank above larger ones.
pub struct MinFirst;

impl Order<i32> for MaxFirst {
    open spec fn ranks(&self, a: i32, b: i32) -> bool {
        a > b
    }

    fn outranks(&self, a: &i32, b: &i32) -> (r: bool) {
        *a > *b
    }
}

impl Order<i32> for MinFirst {
    open spec fn ranks(&self, a: i32, b: i32) -> bool {
        a < b
    }

    fn outranks(&self, a: &i32, b: &i32) -> (r: bool) {
        *a < *b
    }
}

/// Both orders of the integers that come with the heap are strict weak
/// orders.
pub proof fn lemma_integer_orders_are_strict_weak()
    ensures
        strict_weak_order(MaxFirst),
        strict_weak_order(MinFirst),
{
}

/// Position of the parent of the node at position `i > 0`.
pub open spec fn parent_of(i: int) -> int {
    (i - 1) / 2
}

/// The node at position `i` is not ranked above its parent.
pub open spec fn rests_under_parent<T, O: Order<T>>(order: O, s: Seq<T>, i: int) -> bool {
    !order.ranks(s[i], s[parent_of(i)])
}

/// The heap property: no node is ranked above its parent.
pub open spec fn heap_ordered<T, O: Order<T>>(order: O, s: Seq<T>) -> bool {
    forall|i: int| 0 < i < s.len() ==> #[trigger] rests_under_parent(order, s, i)
}

/// The sequence `s` after the value at position `at` has risen: while it
/// outranks its parent the two are exchanged, and it stays where it first
/// fails to, or at the root.
pub open spec fn risen<T, O: Order<T>>(order: O, s: Seq<T>, at: int) -> Seq<T>
    decreases at,
{
    if 0 < at < s.len() && order.ranks(s[at], s[parent_of(at)]) {
        risen(order, exchanged(s, at, parent_of(at)), parent_of(at))
    } else {
        s
    }
}

/// The child of the node at `at` that a sinking value is held against: the
/// left one if it is the only one or outranks the right one, else the right.
pub open spec fn contender<T, O: Order<T>>(order: O, s: Seq<T>, at: int) -> int {
    if 2 * at + 2 >= s.len() || order.ranks(s[2 * at + 1], s[2 * at + 2]) {
        2 * at + 1
    } else {
        2 * at + 2
    }
}

/// The sequence `s` after the value at position `at` has sunk: while its
/// contender outranks it the two are exchanged, and it stays where the
/// contender first fails to, or where it has no child.
pub open spec fn sunk<T, O: Order<T>>(order: O, s: Seq<T>, at: int) -> Seq<T>
    decreases s.len() - at,
{
    if 0 <= at && 2 * at + 1 < s.len() && order.ranks(s[contender(order, s, at)], s[at]) {
        sunk(order, exchanged(s, at, contender(order, s, at)), contender(order, s, at))
    } else {
        s
    }
}

/// State of a sift towards the root: every node but the one at `at` rests
/// under its parent, and the children of `at` rest under the parent of `at`.
spec fn rising<T, O: Order<T>>(order: O, s: Seq<T>, at: int) -> bool {
    &&& 0 <= at < s.len()
    &&& forall|i: int| 0 < i < s.len() && i != at ==> #[trigger] rests_under_parent(order, s, i)
    &&& forall|c: int|
        0 < at && 0 < c < s.len() && parent_of(c) == at ==> !order.ranks(
            #[trigger] s[c],
            s[parent_of(at)],
        )
}

/// A heap with one value appended is a sift towards the root from the new leaf.
proof fn lemma_rising_starts<T, O: Order<T>>(order: O, s: Seq<T>, val: T)
    requires
        strict_weak_order(order),
        heap_ordered(order, s),
    ensures
        rising(order, s.push(val), s.len() as int),
{
    let t = s.push(val);
    assert forall|i: int| 0 < i < t.len() && i != s.len() implies #[trigger] rests_under_parent(
        order,
        t,
        i,
    ) by {
        assert(rests_under_parent(order, s, i));
    }
}

/// When the sifted node does not outrank its parent, or is the root, the
/// heap property holds everywhere.
proof fn lemma_rising_ends<T, O: Order<T>>(order: O, s: Seq<T>, at: int)
    requires
        strict_weak_order(order),
        rising(order, s, at),
        at > 0 ==> !order.ranks(s[at], s[parent_of(at)]),
    ensures
        heap_ordered(order, s),
{
    assert forall|i: int| 0 < i < s.len() implies #[trigger] rests_under_parent(order, s, i) by {
        if i != at {
            assert(rests_under_parent(order, s, i));
        }
    }
}

/// When the sifted node outranks its parent, exchanging the two moves the
/// sift one level up.
proof fn lemma_rising_step<T, O: Order<T>>(order: O, s: Seq<T>, at: int)
    requires
        strict_weak_order(order),
        rising(order, s, at),
        at > 0,
        order.ranks(s[at], s[parent_of(at)]),
    ensures
        rising(order, exchanged(s, at, parent_of(at)), parent_of(at)),
{
    let up = parent_of(at);
    let t = exchanged(s, at, up);
    lemma_asymmetric(order, s[at], s[up]);
    assert forall|i: int| 0 < i < t.len() && i != up implies #[trigger] rests_under_parent(
        order,
        t,
        i,
    ) by {
        if i == at {
        } else if parent_of(i) == up {
            assert(rests_under_parent(order, s, i));
            lemma_not_above_chains(order, s[i], s[up], s[at]);
        } else if parent_of(i) == at {
            assert(!order.ranks(s[i], s[parent_of(at)]));
        } else {
            assert(rests_under_parent(order, s, i));
        }
    }
    assert forall|c: int| 0 < up && 0 < c < t.len() && parent_of(c) == up implies !order.ranks(
        #[trigger] t[c],
        t[parent_of(up)],
    ) by {
        assert(rests_under_parent(order, s, up));
        if c != at {
            assert(rests_under_parent(order, s, c));
            lemma_not_above_chains(order, s[c], s[up], s[parent_of(up)]);
        }
    }
}

/// What is left of `s` when its first value is taken out and the last one
/// moves into its place.
pub open spec fn root_replaced<T>(s: Seq<T>) -> Seq<T> {
    s.update(0, s.last()).drop_last()
}

/// Replacing the root by the last leaf removes one occurrence of the old root
/// and nothing else.
pub proof fn lemma_root_replaced_values<T>(s: Seq<T>)
    requires
        s.len() > 0,
    ensures
        root_replaced(s).to_multiset() == s.to_multiset().remove(s[0]),
        root_replaced(s).len() == s.len() - 1,
{
    broadcast use vstd::multiset::group_multiset_axioms;

    let moved = s.update(0, s.last());
    to_multiset_update(s, 0, s.last());
    to_multiset_remove(moved, s.len() - 1);
    to_multiset_contains(s, s[0]);
    to_multiset_contains(s, s.last());
    assert(s.contains(s[0]));
    assert(s.contains(s.last()));
    assert(moved.drop_last() =~= moved.remove(s.len() - 1));
    assert(moved[s.len() - 1] == s.last());
    assert(root_replaced(s).to_multiset() =~= s.to_multiset().remove(s[0]));
}

/// In a heap no value is ranked above the root.
pub proof fn lemma_root_is_best<T, O: Order<T>>(order: O, s: Seq<T>, i: int)
    requires
        strict_weak_order(order),
        heap_ordered(order, s),
        0 <= i < s.len(),
    ensures
        !order.ranks(s[i], s[0]),
    decreases i,
{
    if i == 0 {
        if order.ranks(s[0], s[0]) {
            lemma_asymmetric(order, s[0], s[0]);
        }
    } else {
        assert(rests_under_parent(order, s, i));
        lemma_root_is_best(order, s, parent_of(i));
        lemma_not_above_chains(order, s[i], s[parent_of(i)], s[0]);
    }
}

/// State of a sift towards the leaves: every node rests under its parent
/// unless that parent is the node at `at`, and the children of `at` rest
/// under the parent of `at`.
spec fn sinking<T, O: Order<T>>(order: O, s: Seq<T>, at: int) -> bool {
    &&& 0 <= at < s.len()
    &&& forall|i: int|
        0 < i < s.len() && parent_of(i) != at ==> #[trigger] rests_under_parent(order, s, i)
    &&& forall|c: int|
        0 < at && 0 < c < s.len() && parent_of(c) == at ==> !order.ranks(
            #[trigger] s[c],
            s[parent_of(at)],
        )
}

/// A heap whose root was replaced by its last leaf is a sift towards the
/// leaves from the root.
proof fn lemma_sinking_starts<T, O: Order<T>>(order: O, s: Seq<T>)
    requires
        strict_weak_order(order),
        heap_ordered(order, s),
        s.len() >= 2,
    ensures
        sinking(order, root_replaced(s), 0),
{
    let t = root_replaced(s);
    assert forall|i: int| 0 < i < t.len() && parent_of(i) != 0 implies #[trigger] rests_under_parent(
        order,
        t,
        i,
    ) by {
        assert(rests_under_parent(order, s, i));
    }
}

/// A sift towards the leaves is over at a node without children.
proof fn lemma_sinking_ends_at_leaf<T, O: Order<T>>(order: O, s: Seq<T>, at: int)
    requires
        strict_weak_order(order),
        sinking(order, s, at),
        2 * at + 1 >= s.len(),
    ensures
        heap_ordered(order, s),
{
    assert forall|i: int| 0 < i < s.len() implies #[trigger] rests_under_parent(order, s, i) by {
        assert(parent_of(i) != at);
    }
}

/// The child at `best` is a child of `at` that no other child of `at` outranks.
spec fn best_child<T, O: Order<T>>(order: O, s: Seq<T>, at: int, best: int) -> bool {
    &&& 0 < best < s.len()
    &&& parent_of(best) == at
    &&& forall|c: int|
        0 < c < s.len() && parent_of(c) == at ==> !order.ranks(#[trigger] s[c], s[best])
}

/// Picking between two children by one comparison yields the best child.
proof fn lemma_best_child<T, O: Order<T>>(order: O, s: Seq<T>, at: int, best: int)
    requires
        strict_weak_order(order),
        0 <= at,
        2 * at + 1 < s.len(),
        best == 2 * at + 1 || best == 2 * at + 2,
        best < s.len(),
        2 * at + 2 < s.len() ==> (best == 2 * at + 1 <==> order.ranks(
            s[2 * at + 1],
            s[2 * at + 2],
        )),
    ensures
        best_child(order, s, at, best),
{
    assert forall|c: int| 0 < c < s.len() && parent_of(c) == at implies !order.ranks(
        #[trigger] s[c],
        s[best],
    ) by {
        if c == best {
            if order.ranks(s[c], s[c]) {
                lemma_asymmetric(order, s[c], s[c]);
            }
        } else if best == 2 * at + 1 {
            lemma_asymmetric(order, s[best], s[c]);
        }
    }
}

/// A sift towards the leaves is over when the best child does not outrank
/// the sifted node.
proof fn lemma_sinking_ends_in_place<T, O: Order<T>>(order: O, s: Seq<T>, at: int, best: int)
    requires
        strict_weak_order(order),
        sinking(order, s, at),
        best_child(order, s, at, best),
        !order.ranks(s[best], s[at]),
    ensures
        heap_ordered(order, s),
{
    assert forall|i: int| 0 < i < s.len() implies #[trigger] rests_under_parent(order, s, i) by {
        if parent_of(i) == at {
            lemma_not_above_chains(order, s[i], s[best], s[at]);
        }
    }
}

/// When the best child outranks the sifted node, exchanging the two moves the
/// sift one level down.
proof fn lemma_sinking_step<T, O: Order<T>>(order: O, s: Seq<T>, at: int, best: int)
    requires
        strict_weak_order(order),
        sinking(order, s, at),
        best_child(order, s, at, best),
        order.ranks(s[best], s[at]),
    ensures
        sinking(order, exchanged(s, at, best), best),
{
    let t = exchanged(s, at, best);
    lemma_asymmetric(order, s[best], s[at]);
    assert forall|i: int| 0 < i < t.len() && parent_of(i) != best implies #[trigger] rests_under_parent(
        order,
        t,
        i,
    ) by {
        if i == best {
        } else if parent_of(i) == at {
            assert(!order.ranks(s[i], s[best]));
        } else if i == at {
            assert(!order.ranks(s[best], s[parent_of(at)]));
        } else {
            assert(rests_under_parent(order, s, i));
        }
    }
    assert forall|c: int| 0 < best && 0 < c < t.len() && parent_of(c) == best implies !order.ranks(
        #[trigger] t[c],
        t[parent_of(best)],
    ) by {
        assert(rests_under_parent(order, s, c));
    }
}

/// A binary heap stored as a complete binary tree in a vector: the children
/// of the node at position `i` are at `2 * i + 1` and `2 * i + 2`.
pub struct Heap<T, O: Order<T>> {
    items: Vec<T>,
    order: O,
}

impl<T, O: Order<T>> View for Heap<T, O> {
    type V = Seq<T>;

    /// The stored values in array order, root first.
    closed spec fn view(&self) -> Seq<T> {
        self.items@
    }
}

impl<T, O: Order<T>> Heap<T, O> {
    /// The ranking rule the heap was built with.
    pub closed spec fn order(&self) -> O {
        self.order
    }

    /// The heap property holds of the stored values.
    pub open spec fn is_heap(&self) -> bool {
        heap_ordered(self.order(), self@)
    }

    /// The heap property holds wherever the ranking rule is a strict weak
    /// order. Under any other rule the heap still hands back what was put
    /// in, in an order that nothing is said of.
    pub open spec fn well_formed(&self) -> bool {
        strict_weak_order(self.order()) ==> self.is_heap()
    }

    /// `after` is what `add(val)` may make of this heap: the same rule, one
    /// more value, which is `val`, and the heap property kept.
    pub open spec fn adds(self, val: T, after: Self) -> bool {
        &&& after.order() == self.order()
        &&& after@.len() == self@.len() + 1
        &&& after@.to_multiset() == self@.to_multiset().insert(val)
        &&& after.well_formed()
    }

    /// `after` and `next` are what `pop()` may make of this heap. An empty
    /// heap stays as it is and yields nothing. Any other yields its root and
    /// keeps the rule, the other values and the heap property.
    pub open spec fn pops(self, next: Option<T>, after: Self) -> bool {
        &&& after.order() == self.order()
        &&& after.well_formed()
        &&& if self@.len() == 0 {
            next is None && after@ == self@
        } else {
            &&& next == Some(self@[0])
            &&& after@.len() == self@.len() - 1
            &&& after@.to_multiset() == self@.to_multiset().remove(self@[0])
        }
    }

    /// An empty heap ranked by `order`.
    pub fn new(order: O) -> (heap: Self)
        ensures
            heap@ == Seq::<T>::empty(),
            heap.order() == order,
            heap.is_heap(),
            heap.well_formed(),
    {
        Heap { items: Vec::new(), order }
    }

    /// Whether the heap holds no value.
    pub fn is_empty(&self) -> (empty: bool)
        ensures
            empty == (self@.len() == 0),
    {
        self.items.len() == 0
    }

    /// The number of values held.
    pub fn len(&self) -> (n: usize)
        ensures
            n == self@.len(),
    {
        self.items.len()
    }

    /// Position of the parent of the node at `idx`; the root has none.
    pub fn parent_idx(&self, idx: usize) -> (parent: Option<usize>)
        ensures
            idx == 0 ==> parent is None,
            idx > 0 ==> parent == Some(parent_of(idx as int) as usize),
    {
        if idx > 0 {
            Some((idx - 1) / 2)
        } else {
            None
        }
    }

    /// Position of the left child of the node at `idx`.
    fn left_child_idx(&self, idx: usize) -> (left: usize)
        requires
            2 * idx + 1 <= usize::MAX,
        ensures
            left == 2 * idx + 1,
    {
        2 * idx + 1
    }

    /// Position of the right child of the node at `idx`.
    fn right_child_idx(&self, idx: usize) -> (right: usize)
        requires
            2 * idx + 2 <= usize::MAX,
        ensures
            right == 2 * idx + 2,
    {
        self.left_child_idx(idx) + 1
    }

    /// Whether the node at `idx` has a child in the heap.
    fn children_present(&self, idx: usize) -> (present: bool)
        ensures
            present == (2 * idx + 1 < self@.len()),
    {
        let len = self.len();
        idx <= (usize::MAX - 1) / 2 && self.left_child_idx(idx) < len
    }

    /// Takes the root out of the heap, if there is one: the last leaf moves
    /// into its place and is exchanged with its better child for as long as
    /// that child outranks it.
    pub fn pop(&mut self) -> (next: Option<T>)
        requires
            old(self).well_formed(),
        ensures
            old(self).pops(next, *final(self)),
            old(self)@.len() > 0 ==> final(self)@ == sunk(
                old(self).order(),
                root_replaced(old(self)@),
                0,
            ),
            strict_weak_order(old(self).order()) ==> forall|i: int|
                0 <= i < old(self)@.len() ==> !old(self).order().ranks(
                    #[trigger] old(self)@[i],
                    old(self)@[0],
                ),
    {
        if self.is_empty() {
            return None;
        }
        proof {
            lemma_root_replaced_values(self.items@);
            if strict_weak_order(self.order) {
                assert forall|i: int| 0 <= i < self.items@.len() implies !self.order.ranks(
                    #[trigger] self.items@[i],
                    self.items@[0],
                ) by {
                    lemma_root_is_best(self.order, self.items@, i);
                }
            }
        }
        let next = Some(self.items.swap_remove(0));

        if !self.is_empty() {
            proof {
                if strict_weak_order(self.order) {
                    lemma_sinking_starts(self.order, old(self)@);
                }
                assert(self.items.len() == self.items@.len());
            }
            let mut idx: usize = 0;
            loop
                invariant
                    self.order == old(self).order,
                    self.items@.to_multiset() == old(self)@.to_multiset().remove(old(self)@[0]),
                    self.items@.len() == old(self)@.len() - 1,
                    self.items@.len() <= usize::MAX,
                    idx < self.items@.len(),
                    strict_weak_order(self.order) ==> sinking(self.order, self.items@, idx as int),
                    sunk(self.order, self.items@, idx as int) == sunk(
                        self.order,
                        root_replaced(old(self)@),
                        0,
                    ),
                ensures
                    strict_weak_order(self.order) ==> heap_ordered(self.order, self.items@),
                    self.items@ == sunk(self.order, root_replaced(old(self)@), 0),
                decreases self.items@.len() - idx,
            {
                if !self.children_present(idx) {
                    proof {
                        if strict_weak_order(self.order) {
                            lemma_sinking_ends_at_leaf(self.order, self.items@, idx as int);
                        }
                    }
                    break ;
                }
                let ldx = self.left_child_idx(idx);
                let rdx = self.right_child_idx(idx);

                let cdx = if rdx >= self.len() {
                    ldx
                } else if self.order.outranks(&self.items[ldx], &self.items[rdx]) {
                    ldx
                } else {
                    rdx
                };

                if self.order.outranks(&self.items[cdx], &self.items[idx]) {
                    proof {
                        if strict_weak_order(self.order) {
                            lemma_best_child(self.order, self.items@, idx as int, cdx as int);
                            lemma_sinking_step(self.order, self.items@, idx as int, cdx as int);
                        }
                        lemma_exchanged_keeps_values(self.items@, idx as int, cdx as int);
                    }
                    swap_elements(&mut self.items, idx, cdx);
                    idx = cdx;
                } else {
                    proof {
                        if strict_weak_order(self.order) {
                            lemma_best_child(self.order, self.items@, idx as int, cdx as int);
                            lemma_sinking_ends_in_place(
                                self.order,
                                self.items@,
                                idx as int,
                                cdx as int,
                            );
                        }
                    }
                    break ;
                }
            }
        }
        next
    }

    /// Puts `val` into the heap: it is appended as the last leaf and then
    /// exchanged with its parent for as long as it outranks it.
    pub fn add(&mut self, val: T)
        requires
            old(self).well_formed(),
        ensures
            old(self).adds(val, *final(self)),
            final(self)@ == risen(old(self).order(), old(self)@.push(val), old(self)@.len() as int),
    {
        self.items.push(val);
        proof {
            to_multiset_build(old(self)@, val);
            if strict_weak_order(self.order) {
                lemma_rising_starts(self.order, old(self)@, val);
            }
        }
        let mut idx = self.len() - 1;
        loop
            invariant
                self.order == old(self).order,
                self.items@.to_multiset() == old(self)@.to_multiset().insert(val),
                self.items@.len() == old(self)@.len() + 1,
                idx < self.items@.len(),
                strict_weak_order(self.order) ==> rising(self.order, self.items@, idx as int),
                risen(self.order, self.items@, idx as int) == risen(
                    self.order,
                    old(self)@.push(val),
                    old(self)@.len() as int,
                ),
            ensures
                strict_weak_order(self.order) ==> heap_ordered(self.order, self.items@),
                self.items@ == risen(self.order, old(self)@.push(val), old(self)@.len() as int),
            decreases idx,
        {
            match self.parent_idx(idx) {
                None => {
                    proof {
                        if strict_weak_order(self.order) {
                            lemma_rising_ends(self.order, self.items@, idx as int);
                        }
                    }
                    break ;
                },
                Some(pdx) => {
                    if self.order.outranks(&self.items[idx], &self.items[pdx]) {
                        proof {
                            if strict_weak_order(self.order) {
                                lemma_rising_step(self.order, self.items@, idx as int);
                            }
                            lemma_exchanged_keeps_values(self.items@, idx as int, pdx as int);
                        }
                        swap_elements(&mut self.items, idx, pdx);
                        idx = pdx;
                    } else {
                        proof {
                            if strict_weak_order(self.order) {
                                lemma_rising_ends(self.order, self.items@, idx as int);
                            }
                        }
                        break ;
                    }
                },
            }
        }
    }
}

impl Heap<i32, MaxFirst> {
    /// An empty heap that yields the largest value first.
    pub fn new_max() -> (heap: Self)
        ensures
            heap@ == Seq::<i32>::empty(),
            heap.order() == MaxFirst,
            heap.is_heap(),
            heap.well_formed(),
    {
        Heap::new(MaxFirst)
    }
}

impl Heap<i32, MinFirst> {
    /// An empty heap that yields the smallest value first.
    pub fn new_min() -> (heap: Self)
        ensures
            heap@ == Seq::<i32>::empty(),
            heap.order() == MinFirst,
            heap.is_heap(),
            heap.well_formed(),
    {
        Heap::new(MinFirst)
    }
}

} // verus!
