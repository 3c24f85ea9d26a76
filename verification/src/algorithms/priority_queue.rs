//! A priority queue kept as a binary heap.

use crate::algorithms::order::{lemma_order_transitive, lemma_trichotomy, less, lt, total_order};
use vstd::multiset::{lemma_multiset_empty_len, Multiset};
use vstd::prelude::*;
use vstd::seq_lib::{
    to_multiset_build, to_multiset_contains, to_multiset_remove, to_multiset_update,
};

verus! {

/// A priority queue kept as a binary heap in an array, slot 0 unused:
/// the children of slot `k` are the slots `2k` and `2k + 1`. According
/// to `is_max`, `delete` hands out a largest or a smallest key.
pub struct PriorityQueue<T> {
    queue: Vec<Option<T>>,
    last: usize,
    is_max: bool,
    capacity: usize,
}

/// `a` has to leave after `b`: it is smaller in a queue that hands out
/// the largest key first, larger in one that hands out the smallest.
pub open spec fn worse<T: Ord>(is_max: bool, a: T, b: T) -> bool {
    if is_max {
        lt(a, b)
    } else {
        lt(b, a)
    }
}

/// The keys in the slots `1..=last`.
pub open spec fn heap_items<T>(slots: Seq<Option<T>>, last: int) -> Seq<T> {
    Seq::new(last as nat, |i: int| slots[i + 1]->0)
}

/// The slots `1..=last` hold a key each.
pub open spec fn slots_filled<T>(slots: Seq<Option<T>>, last: int) -> bool {
    0 <= last < slots.len() && forall|k: int| 1 <= k <= last ==> (#[trigger] slots[k]) is Some
}

/// The key in slot `k` does not have to leave before the key in its parent slot.
pub open spec fn ordered_at<T: Ord>(is_max: bool, slots: Seq<Option<T>>, k: int) -> bool {
    !worse(is_max, slots[k / 2]->0, slots[k]->0)
}

/// Every key but that of the root is in its place below its parent,
/// except perhaps the key in slot `skip` and the keys in the slots below `below`.
pub open spec fn heap_except<T: Ord>(
    is_max: bool,
    slots: Seq<Option<T>>,
    last: int,
    skip: int,
    below: int,
) -> bool {
    forall|k: int|
        2 <= k <= last && k != skip && k / 2 != below ==> #[trigger] ordered_at(is_max, slots, k)
}

/// The key in slot `c` does not have to leave before the key in the
/// parent slot of slot `k`.
pub open spec fn above_ok<T: Ord>(is_max: bool, slots: Seq<Option<T>>, k: int, c: int) -> bool {
    !worse(is_max, slots[k / 2]->0, slots[c]->0)
}

/// The keys in the child slots of slot `k` would be in their place
/// below the parent of slot `k`.
pub open spec fn children_fit<T: Ord>(
    is_max: bool,
    slots: Seq<Option<T>>,
    last: int,
    k: int,
) -> bool {
    k >= 2 ==> forall|c: int|
        2 <= c <= last && c / 2 == k ==> #[trigger] above_ok(is_max, slots, k, c)
}

/// The array with the contents of the slots `i` and `j` exchanged.
pub open spec fn swapped<T>(slots: Seq<Option<T>>, i: int, j: int) -> Seq<Option<T>> {
    slots.update(i, slots[j]).update(j, slots[i])
}

/// Exchanging two keys of the heap keeps the keys it holds.
pub proof fn lemma_swap_keeps_keys<T>(slots: Seq<Option<T>>, last: int, i: int, j: int)
    requires
        slots_filled(slots, last),
        1 <= i <= last,
        1 <= j <= last,
    ensures
        slots_filled(swapped(slots, i, j), last),
        heap_items(swapped(slots, i, j), last).to_multiset() == heap_items(
            slots,
            last,
        ).to_multiset(),
{
    let items = heap_items(slots, last);
    let after = heap_items(swapped(slots, i, j), last);
    let step = items.update(i - 1, items[j - 1]);
    assert(after =~= step.update(j - 1, items[i - 1]));
    to_multiset_update(items, i - 1, items[j - 1]);
    to_multiset_update(step, j - 1, items[i - 1]);
    to_multiset_contains(items, items[i - 1]);
    to_multiset_contains(items, items[j - 1]);
    assert(items.contains(items[i - 1]));
    assert(items.contains(items[j - 1]));
    assert(after.to_multiset() =~= items.to_multiset());
}

/// In a heap no key has to leave before the key of the root.
pub proof fn lemma_root_first<T: Ord>(is_max: bool, slots: Seq<Option<T>>, last: int, k: int)
    requires
        total_order::<T>(),
        slots_filled(slots, last),
        heap_except(is_max, slots, last, 0, 0),
        1 <= k <= last,
    ensures
        !worse(is_max, slots[1]->0, slots[k]->0),
    decreases k,
{
    let root = slots[1]->0;
    if k == 1 {
        lemma_trichotomy(root, root);
    } else {
        lemma_root_first(is_max, slots, last, k / 2);
        assert(ordered_at(is_max, slots, k));
        let up = slots[k / 2]->0;
        let x = slots[k]->0;
        lemma_order_transitive(root, up, x);
        lemma_order_transitive(x, up, root);
    }
}

impl<T: Ord> View for PriorityQueue<T> {
    type V = Multiset<T>;

    /// The keys in the queue, each as often as it was put in and not yet handed out.
    closed spec fn view(&self) -> Multiset<T> {
        heap_items(self.queue@, self.last as int).to_multiset()
    }
}

impl<T> PriorityQueue<T> where T: Ord {
    /// Whether `delete` hands out a largest key (or else a smallest).
    pub closed spec fn is_max(&self) -> bool {
        self.is_max
    }

    /// The slots in use hold a key each, and no key has to leave before
    /// the key in its parent slot.
    pub closed spec fn wf(&self) -> bool {
        &&& slots_filled(self.queue@, self.last as int)
        &&& heap_except(self.is_max, self.queue@, self.last as int, 0, 0)
    }

    /// An empty queue that hands out the largest key first if `is_max`
    /// holds, and the smallest first if not.
    pub fn new(is_max: bool) -> (q: Self)
        ensures
            q.wf(),
            q@ == Multiset::<T>::empty(),
            q.is_max() == is_max,
    {
        let mut queue: Vec<Option<T>> = Vec::with_capacity(2);
        queue.insert(0, None);
        let q = PriorityQueue { queue, last: 0, is_max, capacity: 2 };
        proof {
            heap_items(q.queue@, 0).to_multiset_ensures();
            lemma_multiset_empty_len(q@);
        }
        q
    }

    /// Whether the queue holds no key.
    pub fn is_empty(&self) -> (b: bool)
        ensures
            b == (self@.len() == 0),
    {
        proof {
            heap_items(self.queue@, self.last as int).to_multiset_ensures();
        }
        self.last == 0
    }

    /// Puts `key` into the queue.
    pub fn insert(&mut self, key: T)
        requires
            old(self).wf(),
            total_order::<T>(),
            old(self)@.len() + 1 < usize::MAX,
        ensures
            final(self).wf(),
            final(self).is_max() == old(self).is_max(),
            final(self)@ == old(self)@.insert(key),
    {
        proof {
            heap_items(self.queue@, self.last as int).to_multiset_ensures();
        }
        let capacity = self.capacity;
        if self.last == capacity {
            if capacity == 0 {
                self.resize(1);
            } else if capacity <= usize::MAX / 2 {
                self.resize(2 * capacity);
            } else {
                self.resize(usize::MAX);
            }
        }
        let ghost before = self.queue@;
        self.last += 1;
        insert(&mut self.queue, self.last, Some(key));
        proof {
            let last = self.last as int;
            assert(heap_items(self.queue@, last) =~= heap_items(before, last - 1).push(key));
            to_multiset_build(heap_items(before, last - 1), key);
            assert forall|k: int|
                2 <= k <= last && k != last && k / 2 != 0 implies #[trigger] ordered_at(
                self.is_max,
                self.queue@,
                k,
            ) by {
                assert(ordered_at(self.is_max, before, k));
            }
        }
        self.swim(self.last);
    }

    /// Hands out a key that none of the others has to leave before.
    pub fn delete(&mut self) -> (r: Option<T>)
        requires
            old(self).wf(),
            total_order::<T>(),
            old(self)@.len() > 0,
        ensures
            final(self).wf(),
            final(self).is_max() == old(self).is_max(),
            r is Some,
            old(self)@.count(r->0) > 0,
            final(self)@ == old(self)@.remove(r->0),
            forall|y: T| old(self)@.count(y) > 0 ==> !worse(old(self).is_max(), r->0, y),
    {
        let ghost slots0 = self.queue@;
        let ghost last0 = self.last as int;
        let ghost items0 = heap_items(slots0, last0);
        proof {
            items0.to_multiset_ensures();
            assert(last0 > 0);
            assert forall|y: T| old(self)@.count(y) > 0 implies !worse(
                self.is_max,
                slots0[1]->0,
                y,
            ) by {
                to_multiset_contains(items0, y);
                let i = choose|i: int| 0 <= i < items0.len() && items0[i] == y;
                lemma_root_first(self.is_max, slots0, last0, i + 1);
            }
        }
        let max = self.queue[1].take();
        let last = self.last;
        swap(&mut self.queue, 1, last);
        self.last -= 1;
        proof {
            let slots = self.queue@;
            let now = heap_items(slots, last0 - 1);
            let x = slots0[1]->0;
            let y = slots0[last0]->0;
            to_multiset_contains(items0, x);
            assert(items0[0] == x);
            if last0 > 1 {
                let moved = items0.update(0, y);
                assert(now =~= moved.remove(last0 - 1));
                to_multiset_update(items0, 0, y);
                to_multiset_remove(moved, last0 - 1);
                assert(now.to_multiset() =~= items0.to_multiset().remove(x));
            } else {
                now.to_multiset_ensures();
                lemma_multiset_empty_len(now.to_multiset());
                lemma_multiset_empty_len(items0.to_multiset().remove(x));
            }
            assert forall|k: int|
                2 <= k <= last0 - 1 && k != 0 && k / 2 != 1 implies #[trigger] ordered_at(
                self.is_max,
                slots,
                k,
            ) by {
                assert(ordered_at(self.is_max, slots0, k));
            }
        }
        self.sink(1);
        let capacity = self.capacity;
        if self.last == capacity / 4 {
            self.resize(capacity / 2);
        }
        max
    }

    /// Lifts the key in slot `k` while the key in its parent slot has to
    /// leave after it.
    fn swim(&mut self, k: usize)
        requires
            total_order::<T>(),
            slots_filled(old(self).queue@, old(self).last as int),
            1 <= k <= old(self).last,
            heap_except(old(self).is_max, old(self).queue@, old(self).last as int, k as int, 0),
            children_fit(old(self).is_max, old(self).queue@, old(self).last as int, k as int),
        ensures
            final(self).wf(),
            final(self).is_max == old(self).is_max,
            final(self).last == old(self).last,
            final(self).capacity == old(self).capacity,
            final(self)@ == old(self)@,
    {
        let mut k = k;
        loop
            invariant
                total_order::<T>(),
                self.is_max == old(self).is_max,
                self.last == old(self).last,
                self.capacity == old(self).capacity,
                self@ == old(self)@,
                slots_filled(self.queue@, self.last as int),
                1 <= k <= self.last,
                heap_except(self.is_max, self.queue@, self.last as int, k as int, 0),
                children_fit(self.is_max, self.queue@, self.last as int, k as int),
            ensures
                self.wf(),
            decreases k,
        {
            if k <= 1 {
                break ;
            }
            let misplaced = {
                let parent = self.queue[k / 2].as_ref();
                let child = self.queue[k].as_ref();
                self.compare(parent.unwrap(), child.unwrap())
            };
            if misplaced {
                let ghost before = self.queue@;
                let ghost last = self.last as int;
                let ghost up = k as int / 2;
                swap(&mut self.queue, k, k / 2);
                proof {
                    let slots = self.queue@;
                    lemma_swap_keeps_keys(before, last, k as int, up);
                    let p = before[up]->0;
                    let x = before[k as int]->0;
                    assert forall|j: int|
                        2 <= j <= last && j != up && j / 2 != 0 implies #[trigger] ordered_at(
                        self.is_max,
                        slots,
                        j,
                    ) by {
                        lemma_trichotomy(p, x);
                        lemma_trichotomy(x, p);
                        if j == k {
                        } else if j / 2 == k {
                            assert(above_ok(self.is_max, before, k as int, j));
                        } else if j / 2 == up {
                            assert(ordered_at(self.is_max, before, j));
                            let s = before[j]->0;
                            lemma_order_transitive(x, p, s);
                            lemma_order_transitive(s, p, x);
                        } else {
                            assert(ordered_at(self.is_max, before, j));
                        }
                    }
                    assert forall|c: int| 2 <= c <= last && c / 2 == up && up >= 2
                        implies #[trigger] above_ok(
                        self.is_max,
                        slots,
                        up,
                        c,
                    ) by {
                        assert(ordered_at(self.is_max, before, up));
                        let g = before[up / 2]->0;
                        if c == k {
                        } else {
                            assert(ordered_at(self.is_max, before, c));
                            let s = before[c]->0;
                            lemma_order_transitive(g, p, s);
                            lemma_order_transitive(s, p, g);
                        }
                    }
                }
                k = k / 2;
            } else {
                proof {
                    assert(ordered_at(self.is_max, self.queue@, k as int));
                }
                break ;
            }
        }
    }

    /// Whether `a` has to leave after `b`.
    fn compare(&self, a: &T, b: &T) -> (r: bool)
        requires
            total_order::<T>(),
        ensures
            r == worse(self.is_max, *a, *b),
    {
        if self.is_max {
            less(a, b)
        } else {
            less(b, a)
        }
    }

    /// Lowers the key in slot `k` while one in a child slot has to leave
    /// before it.
    fn sink(&mut self, k: usize)
        requires
            total_order::<T>(),
            slots_filled(old(self).queue@, old(self).last as int),
            k == 1,
            heap_except(old(self).is_max, old(self).queue@, old(self).last as int, 0, k as int),
        ensures
            final(self).wf(),
            final(self).is_max == old(self).is_max,
            final(self).last == old(self).last,
            final(self).capacity == old(self).capacity,
            final(self)@ == old(self)@,
    {
        let mut k = k;
        while k <= self.last / 2
            invariant
                total_order::<T>(),
                self.is_max == old(self).is_max,
                self.last == old(self).last,
                self.capacity == old(self).capacity,
                self@ == old(self)@,
                slots_filled(self.queue@, self.last as int),
                1 <= k,
                k <= self.last || self.last == 0,
                heap_except(self.is_max, self.queue@, self.last as int, 0, k as int),
                children_fit(self.is_max, self.queue@, self.last as int, k as int),
            ensures
                self.wf(),
            decreases self.last - k,
        {
            let mut j = 2 * k;
            if j < self.last {
                let right_first = {
                    let l_child = self.queue[j].as_ref();
                    let r_child = self.queue[j + 1].as_ref();
                    self.compare(l_child.unwrap(), r_child.unwrap())
                };
                if right_first {
                    j += 1;
                }
            }
            let misplaced = {
                let parent = self.queue[k].as_ref();
                let child = self.queue[j].as_ref();
                self.compare(parent.unwrap(), child.unwrap())
            };
            let ghost before = self.queue@;
            let ghost last = self.last as int;
            let ghost other = if j == 2 * k {
                2 * k + 1
            } else {
                2 * k as int
            };
            proof {
                let c = before[j as int]->0;
                if other <= last {
                    let o = before[other]->0;
                    lemma_trichotomy(c, o);
                    lemma_trichotomy(o, c);
                    assert(!worse(self.is_max, c, o));
                }
            }
            if misplaced {
                swap(&mut self.queue, k, j);
                proof {
                    let slots = self.queue@;
                    lemma_swap_keeps_keys(before, last, k as int, j as int);
                    let p = before[k as int]->0;
                    let c = before[j as int]->0;
                    lemma_trichotomy(p, c);
                    lemma_trichotomy(c, p);
                    assert forall|i: int|
                        2 <= i <= last && i != 0 && i / 2 != j implies #[trigger] ordered_at(
                        self.is_max,
                        slots,
                        i,
                    ) by {
                        if i == j {
                        } else if i == other {
                        } else if i == k {
                            assert(above_ok(self.is_max, before, k as int, j as int));
                        } else {
                            assert(i / 2 != k);
                            assert(ordered_at(self.is_max, before, i));
                        }
                    }
                    assert forall|d: int| 2 <= d <= last && d / 2 == j && j >= 2
                        implies #[trigger] above_ok(
                        self.is_max,
                        slots,
                        j as int,
                        d,
                    ) by {
                        assert(ordered_at(self.is_max, before, d));
                    }
                }
                k = j;
            } else {
                proof {
                    let p = before[k as int]->0;
                    let c = before[j as int]->0;
                    assert forall|i: int| 2 <= i <= last implies #[trigger] ordered_at(
                        self.is_max,
                        before,
                        i,
                    ) by {
                        if i == j {
                        } else if i == other {
                            let o = before[other]->0;
                            lemma_order_transitive(p, c, o);
                            lemma_order_transitive(o, c, p);
                        } else {
                            assert(i / 2 != k);
                        }
                    }
                }
                break ;
            }
        }
        proof {
            assert forall|i: int| 2 <= i <= self.last implies #[trigger] ordered_at(
                self.is_max,
                self.queue@,
                i,
            ) by {
                if i / 2 == k {
                }
            }
        }
    }

    /// Moves the keys into a new array with `capacity` slots reserved.
    fn resize(&mut self, capacity: usize)
        requires
            slots_filled(old(self).queue@, old(self).last as int),
        ensures
            final(self).queue@ == old(self).queue@.take(old(self).last + 1),
            final(self).last == old(self).last,
            final(self).is_max == old(self).is_max,
            final(self).capacity == capacity,
            final(self)@ == old(self)@,
            old(self).wf() ==> final(self).wf(),
    {
        let mut new_queue: Vec<Option<T>> = Vec::with_capacity(capacity);
        let mut i: usize = 0;
        let slots = self.queue.len();
        while i <= self.last
            invariant
                slots == self.queue@.len(),
                i <= self.last + 1,
                self.last == old(self).last,
                self.is_max == old(self).is_max,
                self.last < self.queue@.len(),
                self.queue@.len() == old(self).queue@.len(),
                new_queue@.len() == i,
                forall|k: int| 0 <= k < i ==> new_queue@[k] == old(self).queue@[k],
                forall|k: int|
                    i <= k < self.queue@.len() ==> self.queue@[k] == old(self).queue@[k],
            decreases self.last + 1 - i,
        {
            let item = self.queue[i].take();
            insert(&mut new_queue, i, item);
            i += 1;
        }
        self.queue = new_queue;
        self.capacity = capacity;
        proof {
            assert(self.queue@ =~= old(self).queue@.take(old(self).last + 1));
            assert(heap_items(self.queue@, self.last as int) =~= heap_items(
                old(self).queue@,
                self.last as int,
            ));
            if old(self).wf() {
                assert forall|k: int| 2 <= k <= self.last implies #[trigger] ordered_at(
                    self.is_max,
                    self.queue@,
                    k,
                ) by {
                    assert(ordered_at(self.is_max, old(self).queue@, k));
                }
            }
        }
    }
}

/// Puts `item` into slot `i`: a new slot at the end of the array, or one
/// that is there already.
fn insert<T>(v: &mut Vec<Option<T>>, i: usize, item: Option<T>)
    requires
        i <= old(v)@.len(),
    ensures
        i == old(v)@.len() ==> final(v)@ == old(v)@.push(item),
        i < old(v)@.len() ==> final(v)@ == old(v)@.update(i as int, item),
{
    if v.len() <= i {
        v.insert(i, item);
        proof {
            assert(v@ =~= old(v)@.push(item));
        }
    } else {
        v[i] = item;
    }
}

/// Exchanges the contents of the slots `i` and `j`.
fn swap<T>(v: &mut Vec<Option<T>>, i: usize, j: usize)
    requires
        i < old(v)@.len(),
        j < old(v)@.len(),
    ensures
        final(v)@ == swapped(old(v)@, i as int, j as int),
{
    let a = v[i].take();
    let b = v[j].take();
    v[i] = b;
    v[j] = a;
    proof {
        assert(v@ =~= swapped(old(v)@, i as int, j as int));
    }
}

} // verus!
