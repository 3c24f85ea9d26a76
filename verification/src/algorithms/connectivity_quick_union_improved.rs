//! Union-find as a forest of parent links whose paths are halved on every lookup.

use crate::algorithms::forest::{
    forest_ok, lemma_forest_halve, lemma_forest_identity, lemma_forest_link, merged_rank,
    merged_rep, node_ok,
};
use vstd::prelude::*;

verus! {

/// A set of elements `0..n` split into groups, kept as a forest whose
/// paths are shortened whenever a root is looked up.
pub struct Network {
    tree: Vec<usize>,
    weights: Vec<usize>,
    rep: Ghost<Seq<usize>>,
    rank: Ghost<Seq<nat>>,
    top: Ghost<nat>,
}

impl Network {
    /// The number of elements.
    pub closed spec fn len(&self) -> nat {
        self.tree@.len()
    }

    /// The links form a forest. Every weight starts at zero, and a union
    /// adds the weight of one root to that of the other, so all of them
    /// are zero still.
    pub closed spec fn wf(&self) -> bool {
        &&& forest_ok(self.tree@, self.rep@, self.rank@, self.top@)
        &&& self.weights@.len() == self.tree@.len()
        &&& forall|i: int| 0 <= i < self.weights@.len() ==> self.weights@[i] == 0
    }

    /// The root of the tree that holds `a`.
    pub closed spec fn root_of(&self, a: usize) -> usize {
        self.rep@[a as int]
    }

    /// `a` and `b` are in the same group: their trees have one root.
    pub open spec fn joined(&self, a: usize, b: usize) -> bool {
        self.root_of(a) == self.root_of(b)
    }

    /// Being in the same group is reflexive, symmetric and transitive.
    pub proof fn lemma_joined_equivalence(&self, a: usize, b: usize, c: usize)
        ensures
            self.joined(a, a),
            self.joined(a, b) ==> self.joined(b, a),
            self.joined(a, b) && self.joined(b, c) ==> self.joined(a, c),
    {
    }

    /// Every element in a group of its own.
    pub fn new(num_elts: usize) -> (net: Network)
        ensures
            net.wf(),
            net.len() == num_elts,
            forall|a: usize, b: usize|
                a < num_elts && b < num_elts ==> (#[trigger] net.joined(a, b) <==> a == b),
    {
        let mut tree: Vec<usize> = Vec::new();
        let mut weights: Vec<usize> = Vec::new();
        let mut id: usize = 0;
        while id < num_elts
            invariant
                id <= num_elts,
                tree@.len() == id,
                weights@.len() == id,
                forall|i: int| 0 <= i < id ==> tree@[i] == i,
                forall|i: int| 0 <= i < id ==> weights@[i] == 0,
            decreases num_elts - id,
        {
            tree.push(id);
            weights.push(0);
            id += 1;
        }
        proof {
            lemma_forest_identity(tree@);
        }
        Network {
            tree,
            weights,
            rep: Ghost(tree@),
            rank: Ghost(Seq::new(tree@.len(), |i: int| 0nat)),
            top: Ghost(0),
        }
    }

    /// Looks up both roots, which shortens the paths to them and leaves
    /// the groups as they are.
    pub fn connected(&mut self, p: usize, q: usize) -> (b: bool)
        requires
            old(self).wf(),
            p < old(self).len(),
            q < old(self).len(),
        ensures
            final(self).wf(),
            final(self).len() == old(self).len(),
            forall|a: usize| final(self).root_of(a) == old(self).root_of(a),
            b == old(self).joined(p, q),
    {
        let root_p = self.root(p);
        let root_q = self.root(q);
        root_p == root_q
    }

    /// Hangs the root of one of the two trees below the root of the other.
    pub fn union(&mut self, p: usize, q: usize)
        requires
            old(self).wf(),
            p < old(self).len(),
            q < old(self).len(),
        ensures
            final(self).wf(),
            final(self).len() == old(self).len(),
            forall|a: usize, b: usize|
                a < old(self).len() && b < old(self).len() ==> (#[trigger] final(self).joined(a, b)
                    <==> old(self).joined(a, b) || (old(self).joined(a, p) && old(self).joined(
                    q,
                    b,
                )) || (old(self).joined(a, q) && old(self).joined(p, b))),
    {
        let root_p = self.root(p);
        let root_q = self.root(q);
        if root_p == root_q {
            return ;
        }
        let ghost mid = *self;
        proof {
            assert(node_ok(self.tree@, self.rep@, self.rank@, self.top@, p as int));
            assert(node_ok(self.tree@, self.rep@, self.rank@, self.top@, q as int));
        }
        if self.weights[root_p] < self.weights[root_q] {
            proof {
                lemma_forest_link(self.tree@, self.rep@, self.rank@, self.top@, root_p, root_q);
            }
            self.tree[root_p] = self.tree[root_q];
            self.weights[root_q] = self.weights[root_q] + self.weights[root_p];
            self.rep = Ghost(merged_rep(mid.rep@, root_p, root_q));
            self.rank = Ghost(merged_rank(mid.rank@, root_p, root_q));
            self.top = Ghost(mid.top@ + 1);
        } else {
            proof {
                lemma_forest_link(self.tree@, self.rep@, self.rank@, self.top@, root_q, root_p);
            }
            self.tree[root_q] = self.tree[root_p];
            self.weights[root_p] = self.weights[root_p] + self.weights[root_q];
            self.rep = Ghost(merged_rep(mid.rep@, root_q, root_p));
            self.rank = Ghost(merged_rank(mid.rank@, root_q, root_p));
            self.top = Ghost(mid.top@ + 1);
        }
    }

    /// The root of the tree that holds `node`. On the way up, each
    /// element met is linked to the parent of its parent.
    fn root(&mut self, node: usize) -> (r: usize)
        requires
            old(self).wf(),
            node < old(self).len(),
        ensures
            final(self).wf(),
            final(self).len() == old(self).len(),
            forall|a: usize| final(self).root_of(a) == old(self).root_of(a),
            r == old(self).root_of(node),
            r < old(self).len(),
    {
        let mut current_node = node;
        proof {
            assert(node_ok(self.tree@, self.rep@, self.rank@, self.top@, node as int));
        }
        while current_node != self.tree[current_node]
            invariant
                self.wf(),
                self.tree@.len() == old(self).tree@.len(),
                self.rep@ == old(self).rep@,
                self.rank@ == old(self).rank@,
                self.top@ == old(self).top@,
                current_node < self.tree@.len(),
                self.rep@[current_node as int] == self.rep@[node as int],
                node_ok(self.tree@, self.rep@, self.rank@, self.top@, current_node as int),
            decreases self.top@ - self.rank@[current_node as int],
        {
            proof {
                lemma_forest_halve(self.tree@, self.rep@, self.rank@, self.top@, current_node);
            }
            let up = self.tree[current_node];
            let above = self.tree[up];
            self.tree[current_node] = above;
            proof {
                assert(node_ok(self.tree@, self.rep@, self.rank@, self.top@, above as int));
                assert(node_ok(self.tree@, self.rep@, self.rank@, self.top@, current_node as int));
            }
            current_node = above;
        }
        current_node
    }
}

} // verus!
