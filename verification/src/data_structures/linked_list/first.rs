//! A stack of integers as a singly linked list with an explicit link type.

use vstd::prelude::*;
use std::mem;

verus! {

/// A stack of `i32` values; the most recently pushed value is on top.
pub struct List {
    head: Link,
}

/// One value of a list and the link to those under it.
pub struct Node {
    elem: i32,
    next: Link,
}

/// The rest of a list: nothing, or a node followed by another link.
pub enum Link {
    Empty,
    More(Box<Node>),
}

impl Link {
    /// The values reachable from this link, nearest first.
    pub closed spec fn elems(self) -> Seq<i32>
        decreases self,
    {
        match self {
            Link::Empty => Seq::empty(),
            Link::More(node) => seq![node.elem] + node.next.elems(),
        }
    }
}

impl View for List {
    type V = Seq<i32>;

    /// The values on the stack, top first.
    closed spec fn view(&self) -> Seq<i32> {
        self.head.elems()
    }
}

impl List {
    /// An empty stack.
    pub fn new() -> (list: Self)
        ensures
            list@ == Seq::<i32>::empty(),
    {
        Self { head: Link::Empty }
    }

    /// Puts `elem` on top of the stack.
    pub fn push(&mut self, elem: i32)
        ensures
            final(self)@ == seq![elem] + old(self)@,
    {
        let new_node = Box::new(Node { elem, next: mem::replace(&mut self.head, Link::Empty) });

        self.head = Link::More(new_node);
    }

    /// Takes the top value off the stack, if there is one.
    pub fn pop(&mut self) -> (result: Option<i32>)
        ensures
            old(self)@.len() == 0 ==> result is None && final(self)@ == old(self)@,
            old(self)@.len() > 0 ==> result == Some(old(self)@[0]) && final(self)@ == old(
                self,
            )@.drop_first(),
    {
        let result;
        match mem::replace(&mut self.head, Link::Empty) {
            Link::Empty => {
                result = None;
            },
            Link::More(node) => {
                result = Some(node.elem);
                self.head = node.next;
                assert(self.head.elems() =~= old(self)@.drop_first());
            },
        }

        result
    }
}

} // verus!
