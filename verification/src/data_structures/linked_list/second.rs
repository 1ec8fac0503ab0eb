//! A generic stack as a singly linked list of optional boxed nodes.

use vstd::prelude::*;

verus! {

/// Hands out the values of a [`List`] from the top down, consuming it.
pub struct IntoIter<T>(List<T>);

impl<T> View for IntoIter<T> {
    type V = Seq<T>;

    /// The values still to come, next first.
    closed spec fn view(&self) -> Seq<T> {
        self.0@
    }
}

impl<T> IntoIter<T> {
    /// The next value, if any is left.
    pub fn next(&mut self) -> (item: Option<T>)
        ensures
            old(self)@.len() == 0 ==> item is None && final(self)@ == old(self)@,
            old(self)@.len() > 0 ==> item == Some(old(self)@[0]) && final(self)@ == old(
                self,
            )@.drop_first(),
    {
        self.0.pop()
    }
}

/// A stack of values of type `T`; the most recently pushed value is on top.
pub struct List<T> {
    head: Option<Box<Node<T>>>,
}

struct Node<T> {
    elem: T,
    next: Option<Box<Node<T>>>,
}

/// The values reachable from `link`, nearest first.
spec fn elems<T>(link: Option<Box<Node<T>>>) -> Seq<T>
    decreases link,
{
    match link {
        None => Seq::empty(),
        Some(node) => seq![node.elem] + elems(node.next),
    }
}

impl<T> View for List<T> {
    type V = Seq<T>;

    /// The values on the stack, top first.
    closed spec fn view(&self) -> Seq<T> {
        elems(self.head)
    }
}

impl<T> List<T> {
    /// Turns the stack into a source of its values, top first.
    pub fn into_iter(self) -> (iter: IntoIter<T>)
        ensures
            iter@ == self@,
    {
        IntoIter(self)
    }

    /// An empty stack.
    pub fn new() -> (list: Self)
        ensures
            list@ == Seq::<T>::empty(),
    {
        Self { head: None }
    }

    /// Puts `elem` on top of the stack.
    pub fn push(&mut self, elem: T)
        ensures
            final(self)@ == seq![elem] + old(self)@,
    {
        let new_node = Box::new(Node { elem, next: self.head.take() });

        self.head = Some(new_node);
    }

    /// Takes the top value off the stack, if there is one.
    pub fn pop(&mut self) -> (ret: Option<T>)
        ensures
            old(self)@.len() == 0 ==> ret is None && final(self)@ == old(self)@,
            old(self)@.len() > 0 ==> ret == Some(old(self)@[0]) && final(self)@ == old(
                self,
            )@.drop_first(),
    {
        let ret = match self.head.take() {
            None => None,
            Some(node) => {
                self.head = node.next;
                assert(elems(self.head) =~= old(self)@.drop_first());
                Some(node.elem)
            },
        };

        ret
    }

    /// The top value, if there is one.
    pub fn peek(&self) -> (ret: Option<&T>)
        ensures
            self@.len() == 0 ==> ret is None,
            self@.len() > 0 ==> ret == Some(&self@[0]),
    {
        let ret = match &self.head {
            None => None,
            Some(node) => Some(&node.elem),
        };

        ret
    }

    /// The top value, if there is one, open to change.
    pub fn peek_mut(&mut self) -> (ret: Option<&mut T>)
        ensures
            old(self)@.len() == 0 ==> ret is None && final(self)@ == old(self)@,
            old(self)@.len() > 0 ==> ret is Some && *ret.unwrap() == old(self)@[0] && final(self)@
                == old(self)@.update(0, *final(ret.unwrap())),
    {
        let ret = match &mut self.head {
            None => None,
            Some(node) => Some(&mut node.elem),
        };

        ret
    }
}

} // verus!
