//! A binary search tree that is not rebalanced.

use crate::algorithms::linked_list_queue::LinkedQueue;
use crate::algorithms::order::{
    has_key, inserted, lemma_has_key_left, lemma_has_key_right, lemma_insert_left,
    lemma_insert_right, lemma_insert_same, lemma_order_transitive, lemma_other_side,
    lemma_sorted_split, lemma_trichotomy, Place, place, same, sorted_keys, total_order,
};
use vstd::prelude::*;

verus! {

/// A binary search tree: a leaf, or a node with a key, a value, the tree
/// of the smaller keys, the tree of the larger keys and the number of
/// nodes in all of it.
pub enum BST<K, V> {
    Node { key: K, val: V, left: Box<BST<K, V>>, right: Box<BST<K, V>>, count: usize },
    Leaf,
}

impl<K, V> BST<K, V> where K: Ord {
    /// The keys with their values, from the tree on the left through
    /// the node to the tree on the right.
    pub open spec fn entries(&self) -> Seq<(K, V)>
        decreases self,
    {
        match self {
            BST::Leaf => Seq::empty(),
            BST::Node { key, val, left, right, .. } => left.entries() + seq![(*key, *val)]
                + right.entries(),
        }
    }

    /// Every node holds the number of nodes at and below it.
    pub open spec fn counts_ok(&self) -> bool
        decreases self,
    {
        match self {
            BST::Leaf => true,
            BST::Node { left, right, count, .. } => left.counts_ok() && right.counts_ok() && *count
                == left.entries().len() + 1 + right.entries().len(),
        }
    }

    /// The counts are right and the keys stand in rising order.
    pub open spec fn wf(&self) -> bool {
        self.counts_ok() && sorted_keys(self.entries())
    }

    /// A tree of one node.
    pub fn new(key: K, val: V) -> (t: Self)
        ensures
            t.wf(),
            t.entries() == seq![(key, val)],
    {
        let t = BST::Node {
            key,
            val,
            left: Box::new(BST::Leaf),
            right: Box::new(BST::Leaf),
            count: 1,
        };
        proof {
            assert(BST::<K, V>::Leaf.entries() =~= Seq::empty());
            assert(BST::<K, V>::Leaf.counts_ok());
            assert(t.entries() =~= seq![(key, val)]);
            assert(t.counts_ok());
        }
        t
    }

    /// Whether the tree is a leaf, which holds no key.
    pub fn is_leaf(&self) -> (b: bool)
        ensures
            b == (self is Leaf),
            b == (self.entries().len() == 0),
    {
        if let BST::Leaf = self {
            true
        } else {
            false
        }
    }

    /// The number of keys in the tree.
    pub fn size(&self) -> (n: usize)
        requires
            self.counts_ok(),
        ensures
            n == self.entries().len(),
    {
        match self {
            BST::Leaf => 0,
            BST::Node { count, .. } => *count,
        }
    }

    /// Adds the key `k` with the value `v` at its place in the order. A
    /// tree that holds the key already stays as it is.
    pub fn put(&mut self, k: K, v: V)
        requires
            total_order::<K>(),
            old(self).wf(),
            old(self).entries().len() < usize::MAX,
        ensures
            final(self).wf(),
            inserted(old(self).entries(), final(self).entries(), k, v),
            has_key(final(self).entries(), k),
        decreases old(self).entries().len(),
    {
        let ghost before = old(self).entries();
        match self {
            BST::Leaf => {
                *self = BST::new(k, v);
                proof {
                    assert(self.entries() =~= before.insert(0, (k, v)));
                    lemma_trichotomy(k, k);
                    assert(same(self.entries()[0].0, k));
                }
            },
            BST::Node { key, val, left, right, count } => {
                let ghost l0 = left.entries();
                let ghost r0 = right.entries();
                let ghost mid = (*key, *val);
                proof {
                    lemma_sorted_split(l0, mid, r0);
                }
                match place(&k, key) {
                    Place::Before => {
                        left.put(k, v);
                        proof {
                            lemma_insert_left(l0, left.entries(), mid, r0, k, v);
                            lemma_has_key_left(left.entries(), mid, r0, k);
                        }
                    },
                    Place::After => {
                        right.put(k, v);
                        proof {
                            lemma_insert_right(l0, mid, r0, right.entries(), k, v);
                            lemma_has_key_right(l0, mid, right.entries(), k);
                        }
                    },
                    Place::Same => {
                        proof {
                            lemma_insert_same(l0, mid, r0, k, v);
                        }
                        return ;
                    },
                }
                *count = 1 + left.size() + right.size();
            },
        }
    }

    /// The value of the key that takes the place of `k`, if there is one.
    pub fn get(&self, k: K) -> (r: Option<&V>)
        requires
            total_order::<K>(),
            self.wf(),
        ensures
            r is Some <==> has_key(self.entries(), k),
            forall|i: int|
                0 <= i < self.entries().len() && same(#[trigger] self.entries()[i].0, k) ==> r
                    == Some(&self.entries()[i].1),
        decreases self,
    {
        match self {
            BST::Leaf => None,
            BST::Node { key, val, left, right, .. } => {
                let ghost l0 = left.entries();
                let ghost r0 = right.entries();
                let ghost mid = (*key, *val);
                let ghost all = l0 + seq![mid] + r0;
                proof {
                    lemma_sorted_split(l0, mid, r0);
                    lemma_trichotomy(mid.0, k);
                    lemma_trichotomy(k, mid.0);
                }
                match place(&k, key) {
                    Place::Before => {
                        let r = left.get(k);
                        proof {
                            lemma_other_side(r0, mid.0, k, false);
                            if has_key(l0, k) {
                                lemma_has_key_left(l0, mid, r0, k);
                            }
                            assert forall|i: int|
                                0 <= i < all.len() && same(
                                    #[trigger] all[i].0,
                                    k,
                                ) implies 0 <= i < l0.len() && all[i] == l0[i] by {
                                if i > l0.len() {
                                    assert(all[i] == r0[i - l0.len() - 1]);
                                }
                            }
                        }
                        r
                    },
                    Place::After => {
                        let r = right.get(k);
                        proof {
                            lemma_other_side(l0, mid.0, k, true);
                            if has_key(r0, k) {
                                lemma_has_key_right(l0, mid, r0, k);
                            }
                            assert forall|i: int|
                                0 <= i < all.len() && same(#[trigger] all[i].0, k) implies i
                                > l0.len() && all[i] == r0[i - l0.len() - 1] by {
                                if i < l0.len() {
                                    assert(all[i] == l0[i]);
                                }
                            }
                        }
                        r
                    },
                    Place::Same => {
                        proof {
                            assert(all[l0.len() as int] == mid);
                            assert forall|i: int|
                                0 <= i < all.len() && same(#[trigger] all[i].0, k) implies i
                                == l0.len() by {
                                if i < l0.len() {
                                    assert(all[i] == l0[i]);
                                    lemma_order_transitive(l0[i].0, mid.0, k);
                                    lemma_trichotomy(l0[i].0, k);
                                } else if i > l0.len() {
                                    let x = r0[i - l0.len() - 1];
                                    assert(all[i] == x);
                                    lemma_trichotomy(x.0, k);
                                    lemma_trichotomy(k, x.0);
                                    lemma_trichotomy(x.0, mid.0);
                                    lemma_order_transitive(k, mid.0, x.0);
                                    lemma_order_transitive(x.0, k, mid.0);
                                }
                            }
                        }
                        Some(val)
                    },
                }
            },
        }
    }

    /// The value of the smallest key.
    pub fn min(&self) -> (r: Option<&V>)
        ensures
            self.entries().len() == 0 ==> r is None,
            self.entries().len() > 0 ==> r == Some(&self.entries()[0].1),
        decreases self,
    {
        match self {
            BST::Leaf => None,
            BST::Node { key, val, left, .. } => {
                if left.is_leaf() {
                    Some(val)
                } else {
                    left.min()
                }
            },
        }
    }

    /// The value of the largest key.
    pub fn max(&self) -> (r: Option<&V>)
        ensures
            self.entries().len() == 0 ==> r is None,
            self.entries().len() > 0 ==> r == Some(&self.entries().last().1),
        decreases self,
    {
        match self {
            BST::Leaf => None,
            BST::Node { key, val, right, .. } => {
                if right.is_leaf() {
                    Some(val)
                } else {
                    right.max()
                }
            },
        }
    }

    /// The keys in rising order.
    pub fn keys(&self) -> (q: LinkedQueue<&K>)
        ensures
            q@.len() == self.entries().len(),
            forall|i: int| 0 <= i < q@.len() ==> *(#[trigger] q@[i]) == self.entries()[i].0,
    {
        let mut q = LinkedQueue::<&K>::new();
        inorder_keys(self, &mut q);
        q
    }

    /// The values in the rising order of their keys.
    pub fn values(&self) -> (q: LinkedQueue<&V>)
        ensures
            q@.len() == self.entries().len(),
            forall|i: int| 0 <= i < q@.len() ==> *(#[trigger] q@[i]) == self.entries()[i].1,
    {
        let mut q = LinkedQueue::<&V>::new();
        inorder_values(self, &mut q);
        q
    }
}

/// Puts the keys of `node` at the back of `q`, in rising order.
fn inorder_keys<'a, K: Ord, V>(node: &'a BST<K, V>, q: &mut LinkedQueue<&'a K>)
    ensures
        final(q)@.len() == old(q)@.len() + node.entries().len(),
        forall|i: int| 0 <= i < old(q)@.len() ==> final(q)@[i] == old(q)@[i],
        forall|j: int|
            old(q)@.len() <= j < final(q)@.len() ==> *(#[trigger] final(q)@[j])
                == node.entries()[j - old(q)@.len()].0,
    decreases node,
{
    let ghost q0 = q@;
    match node {
        BST::Leaf => {},
        BST::Node { key, left, right, .. } => {
            inorder_keys(left, q);
            let ghost q1 = q@;
            q.enqueue(key);
            let ghost q2 = q@;
            inorder_keys(right, q);
            proof {
                let l = left.entries();
                let r = right.entries();
                let all = node.entries();
                assert forall|i: int| 0 <= i < q0.len() implies q@[i] == q0[i] by {
                    assert(q2[i] == q1[i]);
                }
                assert forall|j: int| q0.len() <= j < q@.len() implies *(#[trigger] q@[j])
                    == all[j - q0.len()].0 by {
                    if j < q1.len() {
                        assert(q@[j] == q2[j]);
                        assert(q2[j] == q1[j]);
                        assert(all[j - q0.len()] == l[j - q0.len()]);
                    } else if j == q1.len() {
                        assert(q@[j] == q2[j]);
                    } else {
                        assert(all[j - q0.len()] == r[j - q2.len()]);
                    }
                }
            }
        },
    }
}

/// Puts the values of `node` at the back of `q`, in the rising order of their keys.
fn inorder_values<'a, K: Ord, V>(node: &'a BST<K, V>, q: &mut LinkedQueue<&'a V>)
    ensures
        final(q)@.len() == old(q)@.len() + node.entries().len(),
        forall|i: int| 0 <= i < old(q)@.len() ==> final(q)@[i] == old(q)@[i],
        forall|j: int|
            old(q)@.len() <= j < final(q)@.len() ==> *(#[trigger] final(q)@[j])
                == node.entries()[j - old(q)@.len()].1,
    decreases node,
{
    let ghost q0 = q@;
    match node {
        BST::Leaf => {},
        BST::Node { val, left, right, .. } => {
            inorder_values(left, q);
            let ghost q1 = q@;
            q.enqueue(val);
            let ghost q2 = q@;
            inorder_values(right, q);
            proof {
                let l = left.entries();
                let r = right.entries();
                let all = node.entries();
                assert forall|i: int| 0 <= i < q0.len() implies q@[i] == q0[i] by {
                    assert(q2[i] == q1[i]);
                }
                assert forall|j: int| q0.len() <= j < q@.len() implies *(#[trigger] q@[j])
                    == all[j - q0.len()].1 by {
                    if j < q1.len() {
                        assert(q@[j] == q2[j]);
                        assert(q2[j] == q1[j]);
                        assert(all[j - q0.len()] == l[j - q0.len()]);
                    } else if j == q1.len() {
                        assert(q@[j] == q2[j]);
                    } else {
                        assert(all[j - q0.len()] == r[j - q2.len()]);
                    }
                }
            }
        },
    }
}

} // verus!
