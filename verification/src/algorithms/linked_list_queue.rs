//! A queue kept as linked lists.

use vstd::prelude::*;

verus! {

struct Node<T> {
    item: T,
    next: Option<Box<Node<T>>>,
}

/// A first-in, first-out queue kept as two singly linked lists: the
/// items leave from the head of the first, and arrive at the head of the
/// second, which is turned over into the first whenever that runs empty.
pub struct LinkedQueue<T> {
    head: Option<Box<Node<T>>>,
    tail: Option<Box<Node<T>>>,
}

/// Hands out the items of a queue by value, from the front to the back.
pub struct IntoIter<T>(LinkedQueue<T>);

/// Walks a queue from the front to the back without changing it.
pub struct Iter<'a, T> {
    next: Option<&'a Node<T>>,
    later: Vec<&'a T>,
}

/// Walks a queue from the front to the back and lets the caller overwrite each item.
pub struct IterMut<'a, T> {
    next: Option<&'a mut Node<T>>,
    later: Vec<&'a mut T>,
}

/// The items of a list from its head on.
spec fn link_seq<T>(link: Option<Box<Node<T>>>) -> Seq<T>
    decreases link,
{
    match link {
        None => Seq::empty(),
        Some(node) => seq![node.item] + link_seq(node.next),
    }
}

/// The items of a list from one of its nodes on.
spec fn node_seq<T>(node: Node<T>) -> Seq<T> {
    seq![node.item] + link_seq(node.next)
}

/// The items that the references point to.
spec fn refs_seq<T>(refs: Seq<&T>) -> Seq<T> {
    Seq::new(refs.len(), |i: int| *refs[i])
}

/// The items that the references point to, as they are now.
spec fn mut_refs_seq<T>(refs: Seq<&mut T>) -> Seq<T> {
    Seq::new(refs.len(), |i: int| *refs[i])
}

impl<T> View for LinkedQueue<T> {
    type V = Seq<T>;

    /// The items from the front of the queue to its back.
    closed spec fn view(&self) -> Seq<T> {
        link_seq(self.head) + link_seq(self.tail).reverse()
    }
}

impl<T> LinkedQueue<T> {
    /// An empty queue.
    pub fn new() -> (q: Self)
        ensures
            q@ == Seq::<T>::empty(),
    {
        let q = LinkedQueue { head: None, tail: None };
        assert(q@ =~= Seq::<T>::empty());
        q
    }

    /// Whether the queue holds no item.
    pub fn is_empty(&self) -> (b: bool)
        ensures
            b == (self@.len() == 0),
    {
        self.head.is_none() && self.tail.is_none()
    }

    /// Puts `item` at the back.
    pub fn enqueue(&mut self, item: T)
        ensures
            final(self)@ == old(self)@.push(item),
    {
        let new_tail = Box::new(Node { item, next: self.tail.take() });
        self.tail = Some(new_tail);
        proof {
            let arrived = link_seq(old(self).tail);
            assert((seq![item] + arrived).reverse() =~= arrived.reverse().push(item));
            assert(self@ =~= old(self)@.push(item));
        }
    }

    /// Takes the item at the front, if there is one.
    pub fn dequeue(&mut self) -> (r: Option<T>)
        ensures
            old(self)@.len() == 0 ==> r is None && final(self)@ == old(self)@,
            old(self)@.len() > 0 ==> r == Some(old(self)@[0]) && final(self)@ == old(self)@.skip(1),
    {
        if self.head.is_none() {
            self.turn_over();
        }
        match self.head.take() {
            None => None,
            Some(node) => {
                let n = *node;
                self.head = n.next;
                assert(self@ =~= old(self)@.skip(1));
                Some(n.item)
            },
        }
    }

    /// Moves the items that have arrived to the list that the items leave from.
    fn turn_over(&mut self)
        requires
            old(self).head is None,
        ensures
            final(self)@ == old(self)@,
            final(self).tail is None,
    {
        let ghost all = self@;
        assert(all =~= link_seq(self.tail).reverse() + link_seq(self.head));
        loop
            invariant
                link_seq(self.tail).reverse() + link_seq(self.head) == all,
            ensures
                self.tail is None,
                self@ == all,
            decreases link_seq(self.tail).len(),
        {
            let ghost front = link_seq(self.head);
            let ghost back = link_seq(self.tail);
            match self.tail.take() {
                None => {
                    proof {
                        assert(self@ =~= all);
                    }
                    break ;
                },
                Some(node) => {
                    let n = *node;
                    self.tail = n.next;
                    self.head = Some(Box::new(Node { item: n.item, next: self.head.take() }));
                    proof {
                        let rest = link_seq(self.tail);
                        assert(back == seq![n.item] + rest);
                        assert(back.reverse() =~= rest.reverse().push(n.item));
                        assert(rest.reverse() + (seq![n.item] + front) =~= back.reverse() + front);
                    }
                },
            }
        }
    }

    /// A walk that takes the items out of the queue, from the front to the back.
    pub fn into_iter(self) -> (it: IntoIter<T>)
        ensures
            it@ == self@,
    {
        IntoIter(self)
    }

    /// A walk over the items from the front to the back.
    pub fn iter(&self) -> (it: Iter<'_, T>)
        ensures
            it@ == self@,
    {
        let mut later: Vec<&T> = Vec::new();
        let mut cur = &self.tail;
        let ghost arrived = link_seq(self.tail);
        loop
            invariant
                refs_seq(later@) + link_seq(*cur) == arrived,
            ensures
                refs_seq(later@) == arrived,
            decreases link_seq(*cur).len(),
        {
            match cur {
                None => {
                    proof {
                        assert(refs_seq(later@) + link_seq(*cur) =~= refs_seq(later@));
                    }
                    break ;
                },
                Some(node) => {
                    let ghost before = refs_seq(later@);
                    later.push(&node.item);
                    proof {
                        assert(refs_seq(later@) =~= before.push(node.item));
                        assert(refs_seq(later@) + link_seq(node.next) =~= before + link_seq(*cur));
                    }
                    cur = &node.next;
                },
            }
        }
        let it = match &self.head {
            None => Iter { next: None, later },
            Some(node) => Iter { next: Some(&**node), later },
        };
        proof {
            assert(it@ =~= self@);
        }
        it
    }

    /// A walk over the items from the front to the back that lets each
    /// of them be overwritten.
    pub fn iter_mut(&mut self) -> (it: IterMut<'_, T>)
        ensures
            it@ == old(self)@,
    {
        let mut later: Vec<&mut T> = Vec::new();
        let ghost arrived = link_seq(self.tail);
        let mut cur = match &mut self.tail {
            None => None,
            Some(node) => Some(&mut **node),
        };
        let ghost mut seen: Seq<T> = Seq::empty();
        loop
            invariant
                seen == mut_refs_seq(later@),
                seen + (match cur {
                    None => Seq::<T>::empty(),
                    Some(node) => node_seq(*node),
                }) == arrived,
            ensures
                mut_refs_seq(later@) == arrived,
            decreases
                    (match cur {
                        None => 0,
                        Some(node) => node_seq(*node).len(),
                    }),
        {
            match cur {
                None => {
                    proof {
                        assert(seen + Seq::<T>::empty() =~= seen);
                    }
                    break ;
                },
                Some(node) => {
                    let ghost rest = link_seq(node.next);
                    let ghost item = node.item;
                    cur = match &mut node.next {
                        None => None,
                        Some(n) => Some(&mut **n),
                    };
                    later.push(&mut node.item);
                    proof {
                        assert(mut_refs_seq(later@) =~= seen.push(item));
                        assert(seen.push(item) + rest =~= seen + (seq![item] + rest));
                        seen = seen.push(item);
                    }
                },
            }
        }
        let it = match &mut self.head {
            None => IterMut { next: None, later },
            Some(node) => IterMut { next: Some(&mut **node), later },
        };
        proof {
            assert(it@ =~= old(self)@);
        }
        it
    }
}

impl<T> Drop for LinkedQueue<T> {
    /// Takes the nodes apart one by one, so that dropping a long queue
    /// needs no deep recursion.
    fn drop(&mut self)
        opens_invariants none
        no_unwind
    {
        let mut cur_link: Option<Box<Node<T>>> = None;
        core::mem::swap(&mut self.head, &mut cur_link);
        loop
            decreases link_seq(cur_link).len(),
        {
            match cur_link {
                None => {
                    break ;
                },
                Some(mut boxed_node) => {
                    let mut rest: Option<Box<Node<T>>> = None;
                    core::mem::swap(&mut boxed_node.next, &mut rest);
                    cur_link = rest;
                },
            }
        }
        core::mem::swap(&mut self.tail, &mut cur_link);
        loop
            decreases link_seq(cur_link).len(),
        {
            match cur_link {
                None => {
                    break ;
                },
                Some(mut boxed_node) => {
                    let mut rest: Option<Box<Node<T>>> = None;
                    core::mem::swap(&mut boxed_node.next, &mut rest);
                    cur_link = rest;
                },
            }
        }
    }
}

impl<T> View for IntoIter<T> {
    type V = Seq<T>;

    /// The items still to come, in the order in which they will come.
    closed spec fn view(&self) -> Seq<T> {
        self.0@
    }
}

impl<T> IntoIter<T> {
    /// The next item of the walk, if there is one.
    pub fn next(&mut self) -> (r: Option<T>)
        ensures
            old(self)@.len() == 0 ==> r is None && final(self)@ == old(self)@,
            old(self)@.len() > 0 ==> r == Some(old(self)@[0]) && final(self)@ == old(self)@.skip(1),
    {
        self.0.dequeue()
    }
}

impl<'a, T> View for Iter<'a, T> {
    type V = Seq<T>;

    /// The items still to come, in the order in which they will come.
    closed spec fn view(&self) -> Seq<T> {
        (match self.next {
            None => Seq::empty(),
            Some(node) => node_seq(*node),
        }) + refs_seq(self.later@).reverse()
    }
}

impl<'a, T> Iter<'a, T> {
    /// The next item of the walk, if there is one.
    pub fn next(&mut self) -> (r: Option<&'a T>)
        ensures
            old(self)@.len() == 0 ==> r is None && final(self)@ == old(self)@,
            old(self)@.len() > 0
                ==> r == Some(&old(self)@[0]) && final(self)@ == old(self)@.skip(1),
    {
        match self.next {
            None => {
                let ghost before = refs_seq(self.later@);
                let r = self.later.pop();
                proof {
                    if before.len() > 0 {
                        assert(refs_seq(self.later@) =~= before.drop_last());
                        assert(before.drop_last().reverse() =~= before.reverse().skip(1));
                        assert(self@ =~= old(self)@.skip(1));
                        assert(old(self)@[0] == before.reverse()[0]);
                    } else {
                        assert(old(self)@ =~= Seq::<T>::empty());
                    }
                }
                r
            },
            Some(node) => {
                self.next = match &node.next {
                    None => None,
                    Some(n) => Some(&**n),
                };
                assert(self@ =~= old(self)@.skip(1));
                Some(&node.item)
            },
        }
    }
}

impl<'a, T> View for IterMut<'a, T> {
    type V = Seq<T>;

    /// The items still to come, as they are now.
    closed spec fn view(&self) -> Seq<T> {
        (match self.next {
            None => Seq::empty(),
            Some(node) => node_seq(*node),
        }) + mut_refs_seq(self.later@).reverse()
    }
}

impl<'a, T> IterMut<'a, T> {
    /// The next item of the walk, if there is one.
    pub fn next(&mut self) -> (r: Option<&'a mut T>)
        ensures
            old(self)@.len() == 0 ==> r is None && final(self)@ == old(self)@,
            old(self)@.len() > 0 ==> r is Some && *r->0 == old(self)@[0] && final(self)@ == old(
                self,
            )@.skip(1),
    {
        match self.next.take() {
            None => {
                let ghost before = mut_refs_seq(self.later@);
                let r = self.later.pop();
                proof {
                    if before.len() > 0 {
                        assert(mut_refs_seq(self.later@) =~= before.drop_last());
                        assert(before.drop_last().reverse() =~= before.reverse().skip(1));
                        assert(self@ =~= old(self)@.skip(1));
                        assert(old(self)@[0] == before.reverse()[0]);
                    } else {
                        assert(old(self)@ =~= Seq::<T>::empty());
                    }
                }
                r
            },
            Some(node) => {
                self.next = match &mut node.next {
                    None => None,
                    Some(n) => Some(&mut **n),
                };
                proof {
                    assert(self@ =~= old(self)@.skip(1));
                }
                Some(&mut node.item)
            },
        }
    }
}

} // verus!
