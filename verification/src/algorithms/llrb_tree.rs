//! A binary search tree with coloured links and the rotations of a left-leaning red-black tree.

use crate::algorithms::order::{
    has_key, inserted, lemma_has_key_left, lemma_has_key_right, lemma_insert_left,
    lemma_insert_right, lemma_insert_same, lemma_order_transitive, lemma_other_side,
    lemma_sorted_split, lemma_trichotomy, Place, place, same, sorted_keys, total_order,
};
use vstd::prelude::*;

verus! {

/// The colour of the link from a node to its parent.
#[derive(Debug, Clone, Copy)]
pub enum Color {
    Red,
    Black,
}

/// The red links at and below a node that call for a change.
pub enum Lean {
    /// A red link on the right and none on the left.
    Right,
    /// Red links on both sides.
    Both,
    /// A red link on the left, with another on the left below it.
    LeftTwice,
    /// None of these.
    No,
}

/// A binary search tree with coloured links: a leaf, or a node with a
/// key, a value, the tree of the smaller keys, the tree of the larger
/// keys, the number of nodes in all of it and a colour.
pub enum LLRBT<K, V> {
    Node {
        key: K,
        val: V,
        left: Box<LLRBT<K, V>>,
        right: Box<LLRBT<K, V>>,
        count: usize,
        color: Color,
    },
    Leaf,
}

impl<K, V> LLRBT<K, V> where K: Ord {
    /// The keys with their values, from the tree on the left through
    /// the node to the tree on the right.
    pub open spec fn entries(&self) -> Seq<(K, V)>
        decreases self,
    {
        match self {
            LLRBT::Leaf => Seq::empty(),
            LLRBT::Node { key, val, left, right, .. } => left.entries() + seq![(*key, *val)]
                + right.entries(),
        }
    }

    /// Every node holds the number of nodes at and below it.
    pub open spec fn counts_ok(&self) -> bool
        decreases self,
    {
        match self {
            LLRBT::Leaf => true,
            LLRBT::Node { left, right, count, .. } => left.counts_ok() && right.counts_ok()
                && *count
                == left.entries().len() + 1 + right.entries().len(),
        }
    }

    /// The link to the node is red; the link to a leaf never is.
    pub open spec fn red(&self) -> bool {
        match self {
            LLRBT::Leaf => false,
            LLRBT::Node { color, .. } => *color is Red,
        }
    }

    /// The tree on the left of the node; a leaf has a leaf there.
    pub open spec fn left_tree(&self) -> LLRBT<K, V> {
        match self {
            LLRBT::Leaf => LLRBT::Leaf,
            LLRBT::Node { left, .. } => **left,
        }
    }

    /// The tree on the right of the node; a leaf has a leaf there.
    pub open spec fn right_tree(&self) -> LLRBT<K, V> {
        match self {
            LLRBT::Leaf => LLRBT::Leaf,
            LLRBT::Node { right, .. } => **right,
        }
    }

    /// No link in the tree is red.
    pub open spec fn all_black(&self) -> bool
        decreases self,
    {
        match self {
            LLRBT::Leaf => true,
            LLRBT::Node { left, right, color, .. } => *color is Black && left.all_black()
                && right.all_black(),
        }
    }

    /// The counts are right, the keys stand in rising order, and no link
    /// is red: `new` and `put` make black links only.
    pub open spec fn wf(&self) -> bool {
        self.counts_ok() && sorted_keys(self.entries()) && self.all_black()
    }

    /// Whether the link to the node is red.
    pub fn is_red(&self) -> (b: bool)
        ensures
            b == self.red(),
    {
        match self {
            LLRBT::Leaf => false,
            LLRBT::Node { color, .. } => match color {
                Color::Red => true,
                Color::Black => false,
            },
        }
    }

    /// A tree of one node, with a black link.
    pub fn new(key: K, val: V) -> (t: Self)
        ensures
            t.wf(),
            t.entries() == seq![(key, val)],
    {
        let t = LLRBT::Node {
            key,
            val,
            left: Box::new(LLRBT::Leaf),
            right: Box::new(LLRBT::Leaf),
            count: 1,
            color: Color::Black,
        };
        proof {
            assert(LLRBT::<K, V>::Leaf.entries() =~= Seq::empty());
            assert(LLRBT::<K, V>::Leaf.counts_ok());
            assert(LLRBT::<K, V>::Leaf.all_black());
            assert(t.all_black());
            assert(t.entries() =~= seq![(key, val)]);
            assert(t.counts_ok());
        }
        t
    }

    /// Whether the tree is a leaf, which holds no key.
    pub fn is_leaf(&self) -> (b: bool)
        ensures
            b == (self is Leaf),
            b == (self.entries().len() == 0),
    {
        if let LLRBT::Leaf = self {
            true
        } else {
            false
        }
    }

    /// The number of keys in the tree.
    pub fn size(&self) -> (n: usize)
        requires
            self.counts_ok(),
        ensures
            n == self.entries().len(),
    {
        match self {
            LLRBT::Leaf => 0,
            LLRBT::Node { count, .. } => *count,
        }
    }

    /// Adds the key `k` with the value `v` at its place in the order. A
    /// tree that holds the key already stays as it is. On the way back
    /// up, a node with a red link on the right only is rotated to the
    /// left, one with two red links below it has its colours flipped,
    /// and one with two red links in a row on the left is rotated to
    /// the right.
    pub fn put(&mut self, k: K, v: V)
        requires
            total_order::<K>(),
            old(self).wf(),
            old(self).entries().len() < usize::MAX,
        ensures
            final(self).wf(),
            inserted(old(self).entries(), final(self).entries(), k, v),
            has_key(final(self).entries(), k),
        decreases old(self).entries().len(),
    {
        let ghost before = old(self).entries();
        match self {
            LLRBT::Leaf => {
                *self = LLRBT::new(k, v);
                proof {
                    assert(self.entries() =~= before.insert(0, (k, v)));
                    lemma_trichotomy(k, k);
                    assert(same(self.entries()[0].0, k));
                }
            },
            LLRBT::Node { key, val, left, right, count, color } => {
                let ghost l0 = left.entries();
                let ghost r0 = right.entries();
                let ghost mid = (*key, *val);
                proof {
                    lemma_sorted_split(l0, mid, r0);
                }
                match place(&k, key) {
                    Place::Before => {
                        left.put(k, v);
                        proof {
                            lemma_insert_left(l0, left.entries(), mid, r0, k, v);
                            lemma_has_key_left(left.entries(), mid, r0, k);
                        }
                    },
                    Place::After => {
                        right.put(k, v);
                        proof {
                            lemma_insert_right(l0, mid, r0, right.entries(), k, v);
                            lemma_has_key_right(l0, mid, right.entries(), k);
                        }
                    },
                    Place::Same => {
                        proof {
                            lemma_insert_same(l0, mid, r0, k, v);
                        }
                        return ;
                    },
                }
                *count = 1 + left.size() + right.size();
            },
        }
        proof {
            self.lemma_black_links();
        }
        let turn = self.leaning();
        match turn {
            Lean::Right => rotate_left(self),
            Lean::Both => flip_colors(self),
            Lean::LeftTwice => rotate_right(self),
            Lean::No => {},
        }
        match self {
            LLRBT::Leaf => {},
            LLRBT::Node { left, right, count, .. } => {
                *count = 1 + left.size() + right.size();
            },
        }
    }

    /// Which red links at and below the node call for a change.
    fn leaning(&self) -> (r: Lean)
        ensures
            r is Right <==> self.right_tree().red() && !self.left_tree().red(),
            r is Both <==> self.right_tree().red() && self.left_tree().red(),
            r is LeftTwice <==> !self.right_tree().red() && self.left_tree().red()
                && self.left_tree().left_tree().red(),
    {
        match self {
            LLRBT::Node { left, right, .. } => {
                if right.is_red() && !left.is_red() {
                    Lean::Right
                } else if left.is_red() && right.is_red() {
                    Lean::Both
                } else {
                    match &**left {
                        LLRBT::Node { left: below, .. } => {
                            if below.is_red() && left.is_red() {
                                Lean::LeftTwice
                            } else {
                                Lean::No
                            }
                        },
                        LLRBT::Leaf => Lean::No,
                    }
                }
            },
            LLRBT::Leaf => Lean::No,
        }
    }

    /// In a tree without red links, neither the link to the root nor
    /// those to its children are red.
    proof fn lemma_black_links(&self)
        requires
            self.all_black(),
        ensures
            !self.red(),
            !self.left_tree().red(),
            !self.right_tree().red(),
    {
        match self {
            LLRBT::Leaf => {},
            LLRBT::Node { left, right, .. } => {
                assert(left.all_black());
                assert(right.all_black());
            },
        }
    }

    /// The value of the key that takes the place of `k`, if there is one.
    pub fn get(&self, k: K) -> (r: Option<&V>)
        requires
            total_order::<K>(),
            self.wf(),
        ensures
            r is Some <==> has_key(self.entries(), k),
            forall|i: int|
                0 <= i < self.entries().len() && same(#[trigger] self.entries()[i].0, k) ==> r
                    == Some(&self.entries()[i].1),
        decreases self,
    {
        match self {
            LLRBT::Leaf => None,
            LLRBT::Node { key, val, left, right, .. } => {
                let ghost l0 = left.entries();
                let ghost r0 = right.entries();
                let ghost mid = (*key, *val);
                let ghost all = l0 + seq![mid] + r0;
                proof {
                    lemma_sorted_split(l0, mid, r0);
                    lemma_trichotomy(mid.0, k);
                    lemma_trichotomy(k, mid.0);
                }
                match place(&k, key) {
                    Place::Before => {
                        let r = left.get(k);
                        proof {
                            lemma_other_side(r0, mid.0, k, false);
                            if has_key(l0, k) {
                                lemma_has_key_left(l0, mid, r0, k);
                            }
                            assert forall|i: int|
                                0 <= i < all.len() && same(
                                    #[trigger] all[i].0,
                                    k,
                                ) implies 0 <= i < l0.len() && all[i] == l0[i] by {
                                if i > l0.len() {
                                    assert(all[i] == r0[i - l0.len() - 1]);
                                }
                            }
                        }
                        r
                    },
                    Place::After => {
                        let r = right.get(k);
                        proof {
                            lemma_other_side(l0, mid.0, k, true);
                            if has_key(r0, k) {
                                lemma_has_key_right(l0, mid, r0, k);
                            }
                            assert forall|i: int|
                                0 <= i < all.len() && same(#[trigger] all[i].0, k) implies i
                                > l0.len() && all[i] == r0[i - l0.len() - 1] by {
                                if i < l0.len() {
                                    assert(all[i] == l0[i]);
                                }
                            }
                        }
                        r
                    },
                    Place::Same => {
                        proof {
                            assert(all[l0.len() as int] == mid);
                            assert forall|i: int|
                                0 <= i < all.len() && same(#[trigger] all[i].0, k) implies i
                                == l0.len() by {
                                if i < l0.len() {
                                    assert(all[i] == l0[i]);
                                    lemma_order_transitive(l0[i].0, mid.0, k);
                                    lemma_trichotomy(l0[i].0, k);
                                } else if i > l0.len() {
                                    let x = r0[i - l0.len() - 1];
                                    assert(all[i] == x);
                                    lemma_trichotomy(x.0, k);
                                    lemma_trichotomy(k, x.0);
                                    lemma_trichotomy(x.0, mid.0);
                                    lemma_order_transitive(k, mid.0, x.0);
                                    lemma_order_transitive(x.0, k, mid.0);
                                }
                            }
                        }
                        Some(val)
                    },
                }
            },
        }
    }

    /// The value of the smallest key.
    pub fn min(&self) -> (r: Option<&V>)
        ensures
            self.entries().len() == 0 ==> r is None,
            self.entries().len() > 0 ==> r == Some(&self.entries()[0].1),
        decreases self,
    {
        match self {
            LLRBT::Leaf => None,
            LLRBT::Node { key, val, left, .. } => {
                if left.is_leaf() {
                    Some(val)
                } else {
                    left.min()
                }
            },
        }
    }

    /// The value of the largest key.
    pub fn max(&self) -> (r: Option<&V>)
        ensures
            self.entries().len() == 0 ==> r is None,
            self.entries().len() > 0 ==> r == Some(&self.entries().last().1),
        decreases self,
    {
        match self {
            LLRBT::Leaf => None,
            LLRBT::Node { key, val, right, .. } => {
                if right.is_leaf() {
                    Some(val)
                } else {
                    right.max()
                }
            },
        }
    }
}

/// Makes the link to `node` red and the links to its two children black.
fn flip_colors<K, V>(node: &mut LLRBT<K, V>) where K: Ord
    requires
        !old(node).red(),
                old(node).left_tree().red(),
        old(node).right_tree().red(),
    ensures
        final(node).entries() == old(node).entries(),
        final(node).counts_ok() == old(node).counts_ok(),
        final(node).red(),
                !final(node).left_tree().red(),
        !final(node).right_tree().red(),
{
    reveal_with_fuel(LLRBT::entries, 3);
    reveal_with_fuel(LLRBT::counts_ok, 3);
    if let LLRBT::Node { left, right, color, .. } = node {
        *color = Color::Red;
        if let LLRBT::Node { color: left_color, .. } = &mut **left {
            *left_color = Color::Black;
        }
        if let LLRBT::Node { color: right_color, .. } = &mut **right {
            *right_color = Color::Black;
        }
    }
}

/// Lifts the right child of `parent` into its place and makes `parent`
/// the left child of it, joined by a red link; the keys keep their order.
fn rotate_left<K, V>(parent: &mut LLRBT<K, V>) where K: Ord
    requires
                old(parent).right_tree().red(),
        old(parent).counts_ok(),
    ensures
        final(parent).entries() == old(parent).entries(),
        final(parent).counts_ok(),
                final(parent).red() == old(parent).red(),
        final(parent).left_tree().red(),
{
    reveal_with_fuel(LLRBT::entries, 3);
    reveal_with_fuel(LLRBT::counts_ok, 3);
    let mut taken = LLRBT::Leaf;
    core::mem::swap(parent, &mut taken);
    if let LLRBT::Node { key, val, left, right, count, color } = taken {
        if let LLRBT::Node { key: up_key, val: up_val, left: middle, right: outer, .. } = *right {
            let ghost a = left.entries();
            let ghost b = middle.entries();
            let ghost c = outer.entries();
            let low_count = 1 + left.size() + middle.size();
            let low = LLRBT::Node {
                key,
                val,
                left,
                right: middle,
                count: low_count,
                color: Color::Red,
            };
            *parent = LLRBT::Node {
                key: up_key,
                val: up_val,
                left: Box::new(low),
                right: outer,
                count,
                color,
            };
            proof {
                assert(a + seq![(key, val)] + (b + seq![(up_key, up_val)] + c) =~= (a + seq![
                    (key, val),
                ] + b) + seq![(up_key, up_val)] + c);
            }
        }
    }
}

/// Lifts the left child of `parent` into its place and makes `parent`
/// the right child of it, joined by a red link; the keys keep their order.
fn rotate_right<K, V>(parent: &mut LLRBT<K, V>) where K: Ord
    requires
                old(parent).left_tree().red(),
        old(parent).counts_ok(),
    ensures
        final(parent).entries() == old(parent).entries(),
        final(parent).counts_ok(),
                final(parent).red() == old(parent).red(),
        final(parent).right_tree().red(),
{
    reveal_with_fuel(LLRBT::entries, 3);
    reveal_with_fuel(LLRBT::counts_ok, 3);
    let mut taken = LLRBT::Leaf;
    core::mem::swap(parent, &mut taken);
    if let LLRBT::Node { key, val, left, right, count, color } = taken {
        if let LLRBT::Node { key: up_key, val: up_val, left: outer, right: middle, .. } = *left {
            let ghost a = outer.entries();
            let ghost b = middle.entries();
            let ghost c = right.entries();
            let low_count = 1 + middle.size() + right.size();
            let low = LLRBT::Node {
                key,
                val,
                left: middle,
                right,
                count: low_count,
                color: Color::Red,
            };
            *parent = LLRBT::Node {
                key: up_key,
                val: up_val,
                left: outer,
                right: Box::new(low),
                count,
                color,
            };
            proof {
                assert((a + seq![(up_key, up_val)] + b) + seq![(key, val)] + c =~= a + seq![
                    (up_key, up_val),
                ] + (b + seq![(key, val)] + c));
            }
        }
    }
}

} // verus!
