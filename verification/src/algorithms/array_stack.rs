//! A stack kept in a resizing array.

use vstd::prelude::*;

verus! {

/// A last-in, first-out stack kept in an array that doubles when it is
/// full and halves when only a quarter of it is in use.
pub struct ArrayStack<T> {
    container: Vec<Option<T>>,
    current: usize,
    capacity: usize,
}

/// Hands out the items of a stack by value, from the top down.
pub struct ConsumerIter<T>(ArrayStack<T>);

/// Walks a stack from the top down without changing it.
pub struct Iter<'a, T> {
    container: &'a Vec<Option<T>>,
    next: usize,
}

/// Walks a stack from the bottom up and lets the caller overwrite each item.
pub struct IterMut<'a, T> {
    rest: Option<&'a mut [Option<T>]>,
}

/// The first `n` slots of `slots` hold an item each; read from the last
/// of them down to the first.
pub open spec fn filled_down<T>(slots: Seq<Option<T>>, n: int) -> Seq<T> {
    Seq::new(n as nat, |i: int| slots[n - 1 - i]->0)
}

/// The first `n` slots of `slots` hold an item each.
pub open spec fn all_filled<T>(slots: Seq<Option<T>>, n: int) -> bool {
    0 <= n <= slots.len() && forall|i: int| 0 <= i < n ==> (#[trigger] slots[i]) is Some
}

impl<T> View for ArrayStack<T> {
    type V = Seq<T>;

    /// The items from the top of the stack down to its bottom.
    closed spec fn view(&self) -> Seq<T> {
        filled_down(self.container@, self.current as int)
    }
}

impl<T> ArrayStack<T> {
    /// The slots in use hold an item each.
    pub closed spec fn wf(&self) -> bool {
        all_filled(self.container@, self.current as int)
    }

    /// The number of slots that the stack has reserved.
    pub closed spec fn reserved(&self) -> usize {
        self.capacity
    }

    /// An empty stack with one slot reserved.
    pub fn new() -> (s: Self)
        ensures
            s.wf(),
            s@ == Seq::<T>::empty(),
            s.reserved() == 1,
    {
        let container = Vec::with_capacity(1);
        let s = ArrayStack { container, current: 0, capacity: 1 };
        assert(s@ =~= Seq::<T>::empty());
        s
    }

    /// Whether the stack holds no item.
    pub fn is_empty(&self) -> (b: bool)
        ensures
            b == (self@.len() == 0),
    {
        self.current == 0
    }

    /// Puts `item` on top; a full stack first doubles what it has reserved.
    pub fn push(&mut self, item: T)
        requires
            old(self).wf(),
            old(self)@.len() < usize::MAX,
        ensures
            final(self).wf(),
            final(self)@ == seq![item] + old(self)@,
            final(self).reserved() == if old(self)@.len() != old(self).reserved() {
                old(self).reserved()
            } else if old(self).reserved() == 0 {
                1usize
            } else if old(self).reserved() <= usize::MAX / 2 {
                (2 * old(self).reserved()) as usize
            } else {
                usize::MAX
            },
    {
        let capacity = self.capacity;
        if self.current == capacity {
            if capacity == 0 {
                self.resize(1);
            } else if capacity <= usize::MAX / 2 {
                self.resize(2 * capacity);
            } else {
                self.resize(usize::MAX);
            }
        }
        insert(&mut self.container, self.current, Some(item));
        self.current += 1;
        proof {
            assert(self@ =~= seq![item] + old(self)@);
        }
    }

    /// Takes the top item off; a stack that is left with a quarter of
    /// what it has reserved in use halves the reserve.
    pub fn pop(&mut self) -> (r: Option<T>)
        requires
            old(self).wf(),
        ensures
            final(self).wf(),
            old(self)@.len() == 0
                ==> r is None && final(self)@ == old(self)@
                    && final(self).reserved() == old(self).reserved(),
            old(self)@.len() > 0 ==> r == Some(old(self)@[0]) && final(self)@ == old(self)@.skip(1),
            old(self)@.len() > 0 ==> final(self).reserved() == if old(self)@.len() - 1 == old(
                self,
            ).reserved() / 4 {
                old(self).reserved() / 2
            } else {
                old(self).reserved()
            },
    {
        if self.current == 0 {
            None
        } else {
            self.current -= 1;
            let item = self.container[self.current].take();
            let capacity = self.capacity;
            proof {
                assert(self@ =~= old(self)@.skip(1));
            }
            if self.current == capacity / 4 {
                self.resize(capacity / 2);
            }
            item
        }
    }

    /// A walk that takes the items off the stack, from the top down.
    pub fn into_iter(self) -> (it: ConsumerIter<T>)
        requires
            self.wf(),
        ensures
            it.wf(),
            it@ == self@,
    {
        ConsumerIter(self)
    }

    /// A walk over the items from the top down.
    pub fn iter(&self) -> (it: Iter<'_, T>)
        requires
            self.wf(),
        ensures
            it.wf(),
            it@ == self@,
    {
        Iter { container: &self.container, next: self.current }
    }

    /// Walks the stack from the bottom up.
    pub fn iter_mut(&mut self) -> (it: IterMut<'_, T>)
        requires
            old(self).wf(),
        ensures
            it.wf(),
            it@ == old(self)@.reverse(),
    {
        let (used, _) = self.container.as_mut_slice().split_at_mut(self.current);
        let it = IterMut { rest: Some(used) };
        proof {
            assert(it@ =~= old(self)@.reverse());
        }
        it
    }

    /// Moves the items into a new array with `capacity` slots reserved.
    fn resize(&mut self, capacity: usize)
        requires
            old(self).wf(),
        ensures
            final(self).wf(),
            final(self)@ == old(self)@,
            final(self).capacity == capacity,
            final(self).current == old(self).current,
            final(self).container@.len() == old(self).current,
    {
        let mut new_container: Vec<Option<T>> = Vec::with_capacity(capacity);
        let mut i: usize = 0;
        while i < self.current
            invariant
                i <= self.current,
                self.current == old(self).current,
                self.capacity == old(self).capacity,
                self.current <= self.container@.len(),
                self.container@.len() == old(self).container@.len(),
                new_container@.len() == i,
                forall|k: int| 0 <= k < i ==> new_container@[k] == old(self).container@[k],
                forall|k: int|
                    i <= k < self.container@.len() ==> self.container@[k] == old(
                        self,
                    ).container@[k],
            decreases self.current - i,
        {
            let item = self.container[i].take();
            insert(&mut new_container, i, item);
            i += 1;
        }
        self.container = new_container;
        self.capacity = capacity;
        proof {
            assert(self@ =~= old(self)@);
        }
    }
}

/// Puts `item` into slot `i`: a new slot at the end of the array, or one
/// that is there already.
fn insert<T>(v: &mut Vec<Option<T>>, i: usize, item: Option<T>)
    requires
        i <= old(v)@.len(),
    ensures
        i == old(v)@.len() ==> final(v)@ == old(v)@.push(item),
        i < old(v)@.len() ==> final(v)@ == old(v)@.update(i as int, item),
{
    if v.len() <= i {
        v.insert(i, item);
        proof {
            assert(v@ =~= old(v)@.push(item));
        }
    } else {
        v[i] = item;
    }
}

impl<T> View for ConsumerIter<T> {
    type V = Seq<T>;

    /// The items still to come, in the order in which they will come.
    closed spec fn view(&self) -> Seq<T> {
        self.0@
    }
}

impl<T> ConsumerIter<T> {
    /// The stack inside is well formed.
    pub closed spec fn wf(&self) -> bool {
        self.0.wf()
    }

    /// The next item of the walk, if there is one.
    pub fn next(&mut self) -> (r: Option<T>)
        requires
            old(self).wf(),
        ensures
            final(self).wf(),
            old(self)@.len() == 0 ==> r is None && final(self)@ == old(self)@,
            old(self)@.len() > 0 ==> r == Some(old(self)@[0]) && final(self)@ == old(self)@.skip(1),
    {
        self.0.pop()
    }
}

impl<'a, T> View for Iter<'a, T> {
    type V = Seq<T>;

    /// The items still to come, in the order in which they will come.
    closed spec fn view(&self) -> Seq<T> {
        filled_down(self.container@, self.next as int)
    }
}

impl<'a, T> Iter<'a, T> {
    /// The slots still to be visited hold an item each.
    pub closed spec fn wf(&self) -> bool {
        all_filled(self.container@, self.next as int)
    }

    /// The next item of the walk, if there is one.
    pub fn next(&mut self) -> (r: Option<&'a T>)
        requires
            old(self).wf(),
        ensures
            final(self).wf(),
            old(self)@.len() == 0 ==> r is None && final(self)@ == old(self)@,
            old(self)@.len() > 0
                ==> r == Some(&old(self)@[0]) && final(self)@ == old(self)@.skip(1),
    {
        if self.next == 0 {
            None
        } else {
            self.next -= 1;
            proof {
                assert(self@ =~= old(self)@.skip(1));
            }
            self.container[self.next].as_ref()
        }
    }
}

impl<'a, T> View for IterMut<'a, T> {
    type V = Seq<T>;

    /// The items still to come, as they are now.
    closed spec fn view(&self) -> Seq<T> {
        match self.rest {
            None => Seq::empty(),
            Some(slots) => Seq::new(slots@.len(), |i: int| slots@[i]->0),
        }
    }
}

impl<'a, T> IterMut<'a, T> {
    /// The slots still to be visited hold an item each.
    pub closed spec fn wf(&self) -> bool {
        match self.rest {
            None => true,
            Some(slots) => all_filled(slots@, slots@.len() as int),
        }
    }

    /// The next item of the walk, if there is one.
    pub fn next(&mut self) -> (r: Option<&'a mut T>)
        requires
            old(self).wf(),
        ensures
            final(self).wf(),
            old(self)@.len() == 0 ==> r is None && final(self)@ == old(self)@,
            old(self)@.len() > 0 ==> r is Some && *r->0 == old(self)@[0] && final(self)@ == old(
                self,
            )@.skip(1),
    {
        match self.rest.take() {
            None => None,
            Some(slots) => {
                if slots.len() == 0 {
                    proof {
                        assert(self@ =~= old(self)@);
                    }
                    None
                } else {
                    let (first, rest) = slots.split_at_mut(1);
                    self.rest = Some(rest);
                    proof {
                        assert(self@ =~= old(self)@.skip(1));
                    }
                    match first.first_mut() {
                        None => None,
                        Some(slot) => slot.as_mut(),
                    }
                }
            },
        }
    }
}

} // verus!
