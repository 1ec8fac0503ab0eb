//! An unbalanced binary search tree that keeps equal values.

use vstd::prelude::*;
use vstd::seq_lib::lemma_multiset_commutative;
use vstd::seq_lib::to_multiset_insert;
use vstd::std_specs::cmp::PartialOrdSpec;
use std::cmp::Ordering;

verus! {

/// `a` compares as less than `b`.
pub open spec fn precedes<T: PartialOrd>(a: T, b: T) -> bool {
    a.partial_cmp_spec(&b) == Some(Ordering::Less)
}

/// `a` compares as greater than `b`.
pub open spec fn follows<T: PartialOrd>(a: T, b: T) -> bool {
    a.partial_cmp_spec(&b) == Some(Ordering::Greater)
}

/// `a` compares as equal to `b`.
pub open spec fn ties_with<T: PartialOrd>(a: T, b: T) -> bool {
    a.partial_cmp_spec(&b) == Some(Ordering::Equal)
}

/// `a` can be compared with `b`.
pub open spec fn comparable<T: PartialOrd>(a: T, b: T) -> bool {
    a.partial_cmp_spec(&b) is Some
}

/// The comparison of `T` computes what `partial_cmp_spec` says, compares any
/// two values, gives opposite answers when its arguments change places, and
/// "is not less than" is transitive.
pub open spec fn totally_ordered<T: PartialOrd>() -> bool {
    &&& T::obeys_partial_cmp_spec()
    &&& forall|a: T, b: T| #[trigger] comparable(a, b)
    &&& forall|a: T, b: T| #[trigger] precedes(a, b) <==> follows(b, a)
    &&& forall|a: T, b: T, c: T|
        !#[trigger] precedes(a, b) && !#[trigger] precedes(b, c) ==> !precedes(a, c)
}

/// No value of `s` is less than one before it.
pub open spec fn non_decreasing<T: PartialOrd>(s: Seq<T>) -> bool {
    forall|i: int, j: int| 0 <= i < j < s.len() ==> !precedes(#[trigger] s[j], #[trigger] s[i])
}

/// The number of leading values of `s` that `v` is not less than: where `v`
/// lands when it is put into `s` behind every value it is not less than.
pub open spec fn landing<T: PartialOrd>(s: Seq<T>, v: T) -> int
    decreases s.len(),
{
    if s.len() == 0 || precedes(v, s[0]) {
        0
    } else {
        1 + landing(s.drop_first(), v)
    }
}

/// The built-in comparison of the machine integers is a total order.
pub proof fn lemma_integers_totally_ordered()
    ensures
        totally_ordered::<i8>(),
        totally_ordered::<i16>(),
        totally_ordered::<i32>(),
        totally_ordered::<i64>(),
        totally_ordered::<isize>(),
        totally_ordered::<u8>(),
        totally_ordered::<u16>(),
        totally_ordered::<u32>(),
        totally_ordered::<u64>(),
        totally_ordered::<usize>(),
{
}

/// The landing place of `v` lies within `s`, at or behind every value that
/// `v` is not less than, and in front of a value that `v` is less than.
pub proof fn lemma_landing_bounds<T: PartialOrd>(s: Seq<T>, v: T)
    ensures
        0 <= landing(s, v) <= s.len(),
        forall|i: int| 0 <= i < landing(s, v) ==> !precedes(v, #[trigger] s[i]),
        landing(s, v) < s.len() ==> precedes(v, s[landing(s, v)]),
    decreases s.len(),
{
    if s.len() != 0 && !precedes(v, s[0]) {
        let rest = s.drop_first();
        lemma_landing_bounds(rest, v);
        assert forall|i: int| 0 <= i < landing(s, v) implies !precedes(v, #[trigger] s[i]) by {
            if i > 0 {
                assert(s[i] == rest[i - 1]);
            }
        }
        if landing(s, v) < s.len() {
            assert(s[landing(s, v)] == rest[landing(rest, v)]);
        }
    }
}

/// The landing place in two sequences put end to end: that in the first if
/// it lies inside it, else the length of the first plus that in the second.
pub proof fn lemma_landing_of_concat<T: PartialOrd>(a: Seq<T>, b: Seq<T>, v: T)
    ensures
        landing(a + b, v) == if landing(a, v) < a.len() {
            landing(a, v)
        } else {
            a.len() + landing(b, v)
        },
    decreases a.len(),
{
    lemma_landing_bounds(a, v);
    if a.len() == 0 {
        assert(a + b =~= b);
    } else if !precedes(v, a[0]) {
        assert((a + b).drop_first() =~= a.drop_first() + b);
        lemma_landing_of_concat(a.drop_first(), b, v);
    }
}

/// `v` lands behind the whole of a sequence of values it is not less than.
pub proof fn lemma_landing_at_end<T: PartialOrd>(s: Seq<T>, v: T)
    requires
        forall|i: int| 0 <= i < s.len() ==> !precedes(v, #[trigger] s[i]),
    ensures
        landing(s, v) == s.len(),
    decreases s.len(),
{
    if s.len() != 0 {
        let rest = s.drop_first();
        assert forall|i: int| 0 <= i < rest.len() implies !precedes(v, #[trigger] rest[i]) by {
            assert(rest[i] == s[i + 1]);
        }
        lemma_landing_at_end(rest, v);
    }
}

/// Putting a value at its landing place keeps a sequence in order.
pub proof fn lemma_landing_keeps_order<T: PartialOrd>(s: Seq<T>, v: T)
    requires
        totally_ordered::<T>(),
        non_decreasing(s),
    ensures
        non_decreasing(s.insert(landing(s, v), v)),
{
    let p = landing(s, v);
    let t = s.insert(p, v);
    lemma_landing_bounds(s, v);
    assert forall|i: int, j: int| 0 <= i < j < t.len() implies !precedes(
        #[trigger] t[j],
        #[trigger] t[i],
    ) by {
        if j == p {
            assert(t[i] == s[i]);
            assert(follows(s[i], v) <==> precedes(v, s[i]));
        } else if i == p {
            assert(t[j] == s[j - 1]);
            assert(precedes(v, s[p]));
            assert(follows(s[p], v));
            assert(!precedes(s[p], v));
            if j - 1 > p {
                assert(!precedes(s[j - 1], s[p]));
            }
            assert(!precedes(s[j - 1], v));
        } else {
            let a = if i < p {
                i
            } else {
                i - 1
            };
            let b = if j < p {
                j
            } else {
                j - 1
            };
            assert(t[i] == s[a] && t[j] == s[b]);
            assert(!precedes(s[b], s[a]));
        }
    }
}

/// In an ordered sequence no value is less than the first, and the last is
/// less than none.
pub proof fn lemma_ends_are_extremes<T: PartialOrd>(s: Seq<T>, i: int)
    requires
        totally_ordered::<T>(),
        non_decreasing(s),
        0 <= i < s.len(),
    ensures
        !precedes(s[i], s[0]),
        !precedes(s.last(), s[i]),
{
    assert(follows(s[0], s[0]) <==> precedes(s[0], s[0]));
    assert(follows(s.last(), s.last()) <==> precedes(s.last(), s.last()));
}

/// The parts of an ordered sequence are ordered, and the value between two
/// parts is not less than any before it nor greater than any behind it.
proof fn lemma_parts_in_order<T: PartialOrd>(l: Seq<T>, k: T, r: Seq<T>)
    requires
        non_decreasing(l + seq![k] + r),
    ensures
        non_decreasing(l),
        non_decreasing(r),
        forall|i: int| 0 <= i < l.len() ==> !precedes(k, #[trigger] l[i]),
        forall|i: int| 0 <= i < r.len() ==> !precedes(#[trigger] r[i], k),
{
    let s = l + seq![k] + r;
    let m = l.len() as int;
    assert(s[m] == k);
    assert forall|i: int, j: int| 0 <= i < j < l.len() implies !precedes(
        #[trigger] l[j],
        #[trigger] l[i],
    ) by {
        assert(s[i] == l[i] && s[j] == l[j]);
    }
    assert forall|i: int, j: int| 0 <= i < j < r.len() implies !precedes(
        #[trigger] r[j],
        #[trigger] r[i],
    ) by {
        assert(s[m + 1 + i] == r[i] && s[m + 1 + j] == r[j]);
    }
    assert forall|i: int| 0 <= i < l.len() implies !precedes(k, #[trigger] l[i]) by {
        assert(s[i] == l[i]);
    }
    assert forall|i: int| 0 <= i < r.len() implies !precedes(#[trigger] r[i], k) by {
        assert(s[m + 1 + i] == r[i]);
    }
}

/// What an insertion into the left part does to the whole.
proof fn lemma_grown_left<T: PartialOrd>(l: Seq<T>, grown: Seq<T>, k: T, r: Seq<T>, v: T)
    requires
        grown.len() == l.len() + 1,
        grown.to_multiset() == l.to_multiset().insert(v),
        totally_ordered::<T>() ==> grown == l.insert(landing(l, v), v),
        totally_ordered::<T>() ==> precedes(v, k),
        totally_ordered::<T>() ==> non_decreasing(l + seq![k] + r),
    ensures
        (grown + seq![k] + r).len() == (l + seq![k] + r).len() + 1,
        (grown + seq![k] + r).to_multiset() == (l + seq![k] + r).to_multiset().insert(v),
        totally_ordered::<T>() ==> grown + seq![k] + r == (l + seq![k] + r).insert(
            landing(l + seq![k] + r, v),
            v,
        ),
        totally_ordered::<T>() ==> non_decreasing(grown + seq![k] + r),
{
    broadcast use vstd::multiset::group_multiset_axioms;

    let before = l + seq![k] + r;
    let after = grown + seq![k] + r;
    lemma_multiset_commutative(l, seq![k]);
    lemma_multiset_commutative(l + seq![k], r);
    lemma_multiset_commutative(grown, seq![k]);
    lemma_multiset_commutative(grown + seq![k], r);
    assert(after.to_multiset() =~= before.to_multiset().insert(v));
    if totally_ordered::<T>() {
        lemma_landing_bounds(l, v);
        lemma_landing_of_concat(l, seq![k] + r, v);
        assert(before =~= l + (seq![k] + r));
        assert((seq![k] + r)[0] == k);
        assert(landing(seq![k] + r, v) == 0);
        assert(landing(before, v) == landing(l, v));
        assert(after =~= before.insert(landing(before, v), v));
        lemma_landing_keeps_order(before, v);
    }
}

/// What an insertion into the right part does to the whole.
proof fn lemma_grown_right<T: PartialOrd>(l: Seq<T>, k: T, r: Seq<T>, grown: Seq<T>, v: T)
    requires
        grown.len() == r.len() + 1,
        grown.to_multiset() == r.to_multiset().insert(v),
        totally_ordered::<T>() ==> grown == r.insert(landing(r, v), v),
        totally_ordered::<T>() ==> !precedes(v, k),
        totally_ordered::<T>() ==> non_decreasing(l + seq![k] + r),
    ensures
        (l + seq![k] + grown).len() == (l + seq![k] + r).len() + 1,
        (l + seq![k] + grown).to_multiset() == (l + seq![k] + r).to_multiset().insert(v),
        totally_ordered::<T>() ==> l + seq![k] + grown == (l + seq![k] + r).insert(
            landing(l + seq![k] + r, v),
            v,
        ),
        totally_ordered::<T>() ==> non_decreasing(l + seq![k] + grown),
{
    broadcast use vstd::multiset::group_multiset_axioms;

    let before = l + seq![k] + r;
    let after = l + seq![k] + grown;
    lemma_multiset_commutative(l + seq![k], r);
    lemma_multiset_commutative(l + seq![k], grown);
    assert(after.to_multiset() =~= before.to_multiset().insert(v));
    if totally_ordered::<T>() {
        let front = l + seq![k];
        lemma_parts_in_order(l, k, r);
        assert forall|i: int| 0 <= i < front.len() implies !precedes(v, #[trigger] front[i]) by {
            if i < l.len() {
                assert(front[i] == l[i]);
                assert(!precedes(k, l[i]));
            }
        }
        lemma_landing_at_end(front, v);
        lemma_landing_of_concat(front, r, v);
        lemma_landing_bounds(r, v);
        assert(after =~= before.insert(landing(before, v), v));
        lemma_landing_keeps_order(before, v);
    }
}

/// What can be compared with every value of a sequence can be compared with
/// every value of its parts.
proof fn lemma_parts_comparable<T: PartialOrd>(l: Seq<T>, k: T, r: Seq<T>, v: T)
    requires
        forall|i: int| 0 <= i < (l + seq![k] + r).len() ==> comparable(
            #[trigger] (l + seq![k] + r)[i],
            v,
        ),
    ensures
        comparable(k, v),
        forall|i: int| 0 <= i < l.len() ==> comparable(#[trigger] l[i], v),
        forall|i: int| 0 <= i < r.len() ==> comparable(#[trigger] r[i], v),
{
    let s = l + seq![k] + r;
    let m = l.len() as int;
    assert(s[m] == k);
    assert forall|i: int| 0 <= i < l.len() implies comparable(#[trigger] l[i], v) by {
        assert(s[i] == l[i]);
    }
    assert forall|i: int| 0 <= i < r.len() implies comparable(#[trigger] r[i], v) by {
        assert(s[m + 1 + i] == r[i]);
    }
}

/// Some value of `s` compares as equal to `v`.
pub open spec fn holds_equal<T: PartialOrd>(s: Seq<T>, v: T) -> bool {
    exists|i: int| 0 <= i < s.len() && ties_with(#[trigger] s[i], v)
}

/// A value greater than the one between two ordered parts has its equals,
/// if any, in the right part; a value less than it, in the left part; a
/// value equal to it has an equal there.
proof fn lemma_equals_lie_on_one_side<T: PartialOrd>(l: Seq<T>, k: T, r: Seq<T>, v: T)
    requires
        totally_ordered::<T>(),
        non_decreasing(l + seq![k] + r),
    ensures
        non_decreasing(l),
        non_decreasing(r),
        ties_with(k, v) ==> holds_equal(l + seq![k] + r, v),
        precedes(k, v) ==> holds_equal(l + seq![k] + r, v) == holds_equal(r, v),
        follows(k, v) ==> holds_equal(l + seq![k] + r, v) == holds_equal(l, v),
{
    let s = l + seq![k] + r;
    let m = l.len() as int;
    lemma_parts_in_order(l, k, r);
    assert(precedes(v, k) <==> follows(k, v));
    assert(s[m] == k);
    if holds_equal(r, v) {
        let i = choose|i: int| 0 <= i < r.len() && ties_with(#[trigger] r[i], v);
        assert(s[m + 1 + i] == r[i]);
    }
    if holds_equal(l, v) {
        let i = choose|i: int| 0 <= i < l.len() && ties_with(#[trigger] l[i], v);
        assert(s[i] == l[i]);
    }
    if holds_equal(s, v) {
        let i = choose|i: int| 0 <= i < s.len() && ties_with(#[trigger] s[i], v);
        let x = s[i];
        assert(follows(x, v) <==> precedes(v, x));
        assert(!precedes(x, v) && !precedes(v, x));
        if i < m {
            assert(x == l[i]);
            assert(!precedes(k, x));
            assert(!precedes(k, v));
        } else if i > m {
            assert(x == r[i - m - 1]);
            assert(!precedes(x, k));
            assert(!precedes(v, k));
        } else {
            assert(x == k);
        }
    }
}

/// The first and the last value of three sequences put end to end.
proof fn lemma_ends_of_three<T>(l: Seq<T>, mid: Seq<T>, r: Seq<T>)
    ensures
        (l + mid + r).len() == l.len() + mid.len() + r.len(),
        l.len() > 0 ==> (l + mid + r)[0] == l[0],
        l.len() == 0 && mid.len() > 0 ==> (l + mid + r)[0] == mid[0],
        r.len() > 0 ==> (l + mid + r).last() == r.last(),
        r.len() == 0 && mid.len() > 0 ==> (l + mid + r).last() == mid.last(),
{
}

/// A binary search tree over values of type `T`. A value that is less than
/// the one at a node goes to the left of it, any other to the right, so
/// equal values are kept, later ones behind earlier ones.
pub struct BinarySearchTree<T> where T: PartialOrd {
    value: Option<T>,
    left: Option<Box<BinarySearchTree<T>>>,
    right: Option<Box<BinarySearchTree<T>>>,
}

/// The values below `link`, left to right.
spec fn walk<T: PartialOrd>(link: Option<Box<BinarySearchTree<T>>>) -> Seq<T>
    decreases link,
{
    match link {
        None => Seq::empty(),
        Some(node) => node.in_order(),
    }
}

/// Every node below `link` holds a value.
spec fn filled<T: PartialOrd>(link: Option<Box<BinarySearchTree<T>>>) -> bool
    decreases link,
{
    match link {
        None => true,
        Some(node) => node.value is Some && node.shaped(),
    }
}

impl<T> View for BinarySearchTree<T> where T: PartialOrd {
    type V = Seq<T>;

    /// The stored values, left to right.
    closed spec fn view(&self) -> Seq<T> {
        self.in_order()
    }
}

impl<T> BinarySearchTree<T> where T: PartialOrd {
    /// The value at this node, if it has one.
    spec fn own(self) -> Seq<T> {
        match self.value {
            Some(v) => seq![v],
            None => Seq::empty(),
        }
    }

    /// The stored values, left to right.
    spec fn in_order(self) -> Seq<T>
        decreases self,
    {
        walk(self.left) + self.own() + walk(self.right)
    }

    /// Only the root of an empty tree is without a value.
    pub closed spec fn shaped(self) -> bool
        decreases self,
    {
        &&& self.value is None ==> self.left is None && self.right is None
        &&& filled(self.left)
        &&& filled(self.right)
    }

    /// The tree has the shape that `new` and `insert` give it, and its values
    /// are in order from left to right wherever `T` is totally ordered.
    pub open spec fn well_formed(self) -> bool {
        &&& self.shaped()
        &&& totally_ordered::<T>() ==> non_decreasing(self@)
    }

    /// A node with a value has something in its walk.
    proof fn lemma_filled_holds_a_value(self)
        requires
            self.value is Some,
        ensures
            self@.len() > 0,
    {
    }

    /// An empty tree.
    pub fn new() -> (tree: BinarySearchTree<T>)
        ensures
            tree@ == Seq::<T>::empty(),
            tree.well_formed(),
    {
        BinarySearchTree { value: None, left: None, right: None }
    }

    /// Puts `value` into the tree: to the left of every node whose value it
    /// is less than, to the right of every other node on its way down.
    pub fn insert(&mut self, value: T)
        requires
            old(self).well_formed(),
        ensures
            final(self).well_formed(),
            final(self)@.len() == old(self)@.len() + 1,
            final(self)@.to_multiset() == old(self)@.to_multiset().insert(value),
            totally_ordered::<T>() ==> final(self)@ == old(self)@.insert(
                landing(old(self)@, value),
                value,
            ),
        decreases *old(self),
    {
        match &self.value {
            None => {
                self.value = Some(value);
                proof {
                    assert(old(self)@ =~= Seq::empty());
                    assert(self@ =~= seq![value]);
                    assert(self@ =~= old(self)@.insert(0, value));
                    to_multiset_insert(old(self)@, 0, value);
                }
            },
            Some(key) => {
                let ghost l = walk(self.left);
                let ghost r = walk(self.right);
                let ghost k = *key;
                proof {
                    assert(self@ == l + seq![k] + r);
                    if totally_ordered::<T>() {
                        lemma_parts_in_order(l, k, r);
                    }
                }
                let goes_left = value < *key;
                let target_node = if goes_left {
                    &mut self.left
                } else {
                    &mut self.right
                };

                match target_node {
                    Some(node) => {
                        node.insert(value);
                    },
                    None => {
                        let mut node = BinarySearchTree::new();
                        node.value = Some(value);
                        proof {
                            assert(node@ =~= seq![value]);
                            assert(node@ =~= Seq::<T>::empty().insert(0, value));
                            to_multiset_insert(Seq::<T>::empty(), 0, value);
                        }
                        *target_node = Some(Box::new(node));
                    },
                }
                proof {
                    if goes_left {
                        lemma_grown_left(l, walk(self.left), k, r, value);
                        assert(self.left.unwrap().shaped());
                        assert(self.left.unwrap().value is Some);
                        assert(self.right == old(self).right);
                    } else {
                        lemma_grown_right(l, k, r, walk(self.right), value);
                        assert(self.right.unwrap().shaped());
                        assert(self.right.unwrap().value is Some);
                        assert(self.left == old(self).left);
                    }
                    assert(self.value == old(self).value);
                    assert(self.shaped());
                    assert(self@ == walk(self.left) + seq![k] + walk(self.right));
                }
            },
        }
    }

    /// Whether the tree holds a value that compares as equal to `value`.
    /// Every stored value must be comparable with `value`.
    pub fn search(&self, value: T) -> (found: bool)
        requires
            self.well_formed(),
            T::obeys_partial_cmp_spec(),
            forall|i: int| 0 <= i < self@.len() ==> comparable(#[trigger] self@[i], value),
        ensures
            totally_ordered::<T>() ==> found == holds_equal(self@, value),
        decreases self,
    {
        let ghost l = walk(self.left);
        let ghost r = walk(self.right);
        match &self.value {
            Some(key) => {
                proof {
                    lemma_parts_comparable(l, *key, r, value);
                    if totally_ordered::<T>() {
                        lemma_equals_lie_on_one_side(l, *key, r, value);
                    }
                }
                match key.partial_cmp(&value).unwrap() {
                    Ordering::Equal => true,
                    Ordering::Less => match &self.right {
                        Some(node) => node.search(value),
                        None => false,
                    },
                    Ordering::Greater => match &self.left {
                        Some(node) => node.search(value),
                        None => false,
                    },
                }
            },
            None => false,
        }
    }

    /// The leftmost value, which is the least where `T` is totally ordered;
    /// `None` for an empty tree.
    pub fn minimum(&self) -> (least: Option<&T>)
        requires
            self.shaped(),
        ensures
            self@.len() == 0 ==> least is None,
            self@.len() > 0 ==> least == Some(&self@[0]),
        decreases self,
    {
        let ghost mid = self.own();
        match &self.left {
            Some(node) => {
                proof {
                    node.lemma_filled_holds_a_value();
                    lemma_ends_of_three(node@, mid, walk(self.right));
                }
                node.minimum()
            },
            None => {
                proof {
                    lemma_ends_of_three(Seq::empty(), mid, walk(self.right));
                }
                self.value.as_ref()
            },
        }
    }

    /// The rightmost value, which is the greatest where `T` is totally
    /// ordered; `None` for an empty tree.
    pub fn maximum(&self) -> (greatest: Option<&T>)
        requires
            self.shaped(),
        ensures
            self@.len() == 0 ==> greatest is None,
            self@.len() > 0 ==> greatest == Some(&self@.last()),
        decreases self,
    {
        let ghost mid = self.own();
        match &self.right {
            Some(node) => {
                proof {
                    node.lemma_filled_holds_a_value();
                    lemma_ends_of_three(walk(self.left), mid, node@);
                }
                node.maximum()
            },
            None => {
                proof {
                    lemma_ends_of_three(walk(self.left), mid, Seq::empty());
                }
                self.value.as_ref()
            },
        }
    }
}

} // verus!
