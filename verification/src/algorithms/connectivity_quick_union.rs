//! Union-find as a forest of parent links: `union` hangs one root below another.

use crate::algorithms::forest::{
    forest_ok, lemma_forest_identity, lemma_forest_link, merged_rank, merged_rep, node_ok,
};
use vstd::prelude::*;

verus! {

/// A set of elements `0..n` split into groups, kept as a forest: each
/// element points to another of its group, and the root of a tree to itself.
pub struct Network {
    parent: Vec<usize>,
    rep: Ghost<Seq<usize>>,
    rank: Ghost<Seq<nat>>,
    top: Ghost<nat>,
}

impl Network {
    /// The number of elements.
    pub closed spec fn len(&self) -> nat {
        self.parent@.len()
    }

    /// The links form a forest.
    pub closed spec fn wf(&self) -> bool {
        forest_ok(self.parent@, self.rep@, self.rank@, self.top@)
    }

    /// The root of the tree that holds `a`.
    pub closed spec fn root_of(&self, a: usize) -> usize {
        self.rep@[a as int]
    }

    /// `a` and `b` are in the same group: their trees have one root.
    pub open spec fn joined(&self, a: usize, b: usize) -> bool {
        self.root_of(a) == self.root_of(b)
    }

    /// Being in the same group is reflexive, symmetric and transitive.
    pub proof fn lemma_joined_equivalence(&self, a: usize, b: usize, c: usize)
        ensures
            self.joined(a, a),
            self.joined(a, b) ==> self.joined(b, a),
            self.joined(a, b) && self.joined(b, c) ==> self.joined(a, c),
    {
    }

    /// Every element in a group of its own.
    pub fn new(num_elts: usize) -> (net: Network)
        ensures
            net.wf(),
            net.len() == num_elts,
            forall|a: usize, b: usize|
                a < num_elts && b < num_elts ==> (#[trigger] net.joined(a, b) <==> a == b),
    {
        let mut ids: Vec<usize> = Vec::new();
        let mut id: usize = 0;
        while id < num_elts
            invariant
                id <= num_elts,
                ids@.len() == id,
                forall|i: int| 0 <= i < id ==> ids@[i] == i,
            decreases num_elts - id,
        {
            ids.push(id);
            id += 1;
        }
        proof {
            lemma_forest_identity(ids@);
        }
        Network {
            parent: ids,
            rep: Ghost(ids@),
            rank: Ghost(Seq::new(ids@.len(), |i: int| 0nat)),
            top: Ghost(0),
        }
    }

    /// Whether `p` and `q` are in the same group.
    pub fn connected(&self, p: usize, q: usize) -> (b: bool)
        requires
            self.wf(),
            p < self.len(),
            q < self.len(),
        ensures
            b == self.joined(p, q),
    {
        self.root(p) == self.root(q)
    }

    /// Hangs the tree of `p` below the root of the tree of `q`.
    pub fn union(&mut self, p: usize, q: usize)
        requires
            old(self).wf(),
            p < old(self).len(),
            q < old(self).len(),
        ensures
            final(self).wf(),
            final(self).len() == old(self).len(),
            forall|a: usize, b: usize|
                a < old(self).len() && b < old(self).len() ==> (#[trigger] final(self).joined(a, b)
                    <==> old(self).joined(a, b) || (old(self).joined(a, p) && old(self).joined(
                    q,
                    b,
                )) || (old(self).joined(a, q) && old(self).joined(p, b))),
    {
        let root_p = self.root(p);
        let root_q = self.root(q);
        proof {
            assert(node_ok(self.parent@, self.rep@, self.rank@, self.top@, p as int));
            assert(node_ok(self.parent@, self.rep@, self.rank@, self.top@, q as int));
            lemma_forest_link(self.parent@, self.rep@, self.rank@, self.top@, root_p, root_q);
        }
        self.parent[root_p] = root_q;
        self.rep = Ghost(merged_rep(old(self).rep@, root_p, root_q));
        self.rank = Ghost(merged_rank(old(self).rank@, root_p, root_q));
        self.top = Ghost(old(self).top@ + 1);
    }

    /// The root of the tree that holds `node`.
    fn root(&self, node: usize) -> (r: usize)
        requires
            self.wf(),
            node < self.len(),
        ensures
            r == self.root_of(node),
            r < self.len(),
    {
        let mut current_node = node;
        proof {
            assert(node_ok(self.parent@, self.rep@, self.rank@, self.top@, node as int));
        }
        while current_node != self.parent[current_node]
            invariant
                self.wf(),
                current_node < self.parent@.len(),
                self.rep@[current_node as int] == self.rep@[node as int],
                node_ok(self.parent@, self.rep@, self.rank@, self.top@, current_node as int),
            decreases self.top@ - self.rank@[current_node as int],
        {
            let next = self.parent[current_node];
            proof {
                assert(node_ok(self.parent@, self.rep@, self.rank@, self.top@, next as int));
            }
            current_node = next;
        }
        current_node
    }
}

} // verus!
