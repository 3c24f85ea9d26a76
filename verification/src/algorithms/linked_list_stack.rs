//! A stack kept as a linked list.

use vstd::prelude::*;

verus! {

struct Node<T> {
    item: T,
    next: Option<Box<Node<T>>>,
}

/// A last-in, first-out stack kept as a singly linked list.
pub struct LinkedStack<T> {
    head: Option<Box<Node<T>>>,
}

/// Hands out the items of a stack by value, from the top down.
pub struct ConsumerIter<T>(LinkedStack<T>);

/// Walks a stack from the top down without changing it.
pub struct Iter<'a, T> {
    next: Option<&'a Node<T>>,
}

/// Walks a stack from the top down and lets the caller overwrite each item.
pub struct IterMut<'a, T> {
    next: Option<&'a mut Node<T>>,
}

/// The items of a list from its head on.
spec fn link_seq<T>(link: Option<Box<Node<T>>>) -> Seq<T>
    decreases link,
{
    match link {
        None => Seq::empty(),
        Some(node) => seq![node.item] + link_seq(node.next),
    }
}

/// The items of a list from one of its nodes on.
spec fn node_seq<T>(node: Node<T>) -> Seq<T> {
    seq![node.item] + link_seq(node.next)
}

impl<T> View for LinkedStack<T> {
    type V = Seq<T>;

    /// The items from the top of the stack down to its bottom.
    closed spec fn view(&self) -> Seq<T> {
        link_seq(self.head)
    }
}

impl<T> LinkedStack<T> {
    /// An empty stack.
    pub fn new() -> (s: Self)
        ensures
            s@ == Seq::<T>::empty(),
    {
        LinkedStack { head: None }
    }

    /// Whether the stack holds no item.
    pub fn is_empty(&self) -> (b: bool)
        ensures
            b == (self@.len() == 0),
    {
        match self.head {
            None => true,
            Some(_) => false,
        }
    }

    /// Puts `item` on top.
    pub fn push(&mut self, item: T)
        ensures
            final(self)@ == seq![item] + old(self)@,
    {
        let new_node = Box::new(Node { item, next: self.head.take() });
        self.head = Some(new_node);
    }

    /// Takes the top item off, if there is one.
    pub fn pop(&mut self) -> (r: Option<T>)
        ensures
            old(self)@.len() == 0 ==> r is None && final(self)@ == old(self)@,
            old(self)@.len() > 0 ==> r == Some(old(self)@[0]) && final(self)@ == old(self)@.skip(1),
    {
        match self.head.take() {
            None => None,
            Some(node) => {
                let n = *node;
                self.head = n.next;
                assert(link_seq(n.next) =~= old(self)@.skip(1));
                Some(n.item)
            },
        }
    }

    /// A walk that takes the items off the stack, from the top down.
    pub fn into_iter(self) -> (it: ConsumerIter<T>)
        ensures
            it@ == self@,
    {
        ConsumerIter(self)
    }

    /// A walk over the items from the top down.
    pub fn iter(&self) -> (it: Iter<'_, T>)
        ensures
            it@ == self@,
    {
        match &self.head {
            None => Iter { next: None },
            Some(node) => Iter { next: Some(&**node) },
        }
    }

    /// A walk over the items from the top down that lets each of them
    /// be overwritten.
    pub fn iter_mut(&mut self) -> (it: IterMut<'_, T>)
        ensures
            it@ == old(self)@,
    {
        match &mut self.head {
            None => IterMut { next: None },
            Some(node) => IterMut { next: Some(&mut **node) },
        }
    }
}

impl<T> Drop for LinkedStack<T> {
    /// Takes the nodes apart one by one, so that dropping a long stack
    /// needs no deep recursion.
    fn drop(&mut self)
        opens_invariants none
        no_unwind
    {
        let mut current_link: Option<Box<Node<T>>> = None;
        core::mem::swap(&mut self.head, &mut current_link);
        loop
            decreases link_seq(current_link).len(),
        {
            match current_link {
                None => {
                    break ;
                },
                Some(mut boxed_node) => {
                    let mut rest: Option<Box<Node<T>>> = None;
                    core::mem::swap(&mut boxed_node.next, &mut rest);
                    current_link = rest;
                },
            }
        }
    }
}

impl<T> View for ConsumerIter<T> {
    type V = Seq<T>;

    /// The items still to come, in the order in which they will come.
    closed spec fn view(&self) -> Seq<T> {
        self.0@
    }
}

impl<T> ConsumerIter<T> {
    /// The next item of the walk, if there is one.
    pub fn next(&mut self) -> (r: Option<T>)
        ensures
            old(self)@.len() == 0 ==> r is None && final(self)@ == old(self)@,
            old(self)@.len() > 0 ==> r == Some(old(self)@[0]) && final(self)@ == old(self)@.skip(1),
    {
        self.0.pop()
    }
}

impl<'a, T> View for Iter<'a, T> {
    type V = Seq<T>;

    /// The items still to come, in the order in which they will come.
    closed spec fn view(&self) -> Seq<T> {
        match self.next {
            None => Seq::empty(),
            Some(node) => node_seq(*node),
        }
    }
}

impl<'a, T> Iter<'a, T> {
    /// The next item of the walk, if there is one.
    pub fn next(&mut self) -> (r: Option<&'a T>)
        ensures
            old(self)@.len() == 0 ==> r is None && final(self)@ == old(self)@,
            old(self)@.len() > 0
                ==> r == Some(&old(self)@[0]) && final(self)@ == old(self)@.skip(1),
    {
        match self.next {
            None => None,
            Some(node) => {
                self.next = match &node.next {
                    None => None,
                    Some(n) => Some(&**n),
                };
                assert(link_seq(node.next) =~= old(self)@.skip(1));
                Some(&node.item)
            },
        }
    }
}

impl<'a, T> View for IterMut<'a, T> {
    type V = Seq<T>;

    /// The items still to come, as they are now.
    closed spec fn view(&self) -> Seq<T> {
        match self.next {
            None => Seq::empty(),
            Some(node) => node_seq(*node),
        }
    }
}

impl<'a, T> IterMut<'a, T> {
    /// The next item of the walk, if there is one.
    pub fn next(&mut self) -> (r: Option<&'a mut T>)
        ensures
            old(self)@.len() == 0 ==> r is None && final(self)@ == old(self)@,
            old(self)@.len() > 0 ==> r is Some && *r->0 == old(self)@[0] && final(self)@ == old(
                self,
            )@.skip(1),
    {
        match self.next.take() {
            None => None,
            Some(node) => {
                self.next = match &mut node.next {
                    None => None,
                    Some(n) => Some(&mut **n),
                };
                Some(&mut node.item)
            },
        }
    }
}

} // verus!
