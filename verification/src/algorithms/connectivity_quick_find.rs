//! Union-find with one group label for each element: a quick `connected`, a slow `union`.

use vstd::prelude::*;

verus! {

/// A set of elements `0..n` split into groups, kept as one group label
/// for each element.
pub struct Network(Vec<usize>);

impl Network {
    /// The number of elements.
    pub closed spec fn len(&self) -> nat {
        self.0@.len()
    }

    /// `a` and `b` are in the same group.
    pub closed spec fn joined(&self, a: usize, b: usize) -> bool {
        self.0@[a as int] == self.0@[b as int]
    }

    /// Being in the same group is reflexive, symmetric and transitive.
    pub proof fn lemma_joined_equivalence(&self, a: usize, b: usize, c: usize)
        ensures
            self.joined(a, a),
            self.joined(a, b) ==> self.joined(b, a),
            self.joined(a, b) && self.joined(b, c) ==> self.joined(a, c),
    {
    }

    /// Every element in a group of its own.
    pub fn new(num_elts: usize) -> (net: Network)
        ensures
            net.len() == num_elts,
            forall|a: usize, b: usize|
                a < num_elts && b < num_elts ==> (#[trigger] net.joined(a, b) <==> a == b),
    {
        let mut ids: Vec<usize> = Vec::new();
        let mut id: usize = 0;
        while id < num_elts
            invariant
                id <= num_elts,
                ids@.len() == id,
                forall|i: int| 0 <= i < id ==> ids@[i] == i,
            decreases num_elts - id,
        {
            ids.push(id);
            id += 1;
        }
        Network(ids)
    }

    /// Whether `p` and `q` are in the same group.
    pub fn connected(&self, p: usize, q: usize) -> (b: bool)
        requires
            p < self.len(),
            q < self.len(),
        ensures
            b == self.joined(p, q),
    {
        self.0[p] == self.0[q]
    }

    /// Merges the group of `p` into the group of `q`.
    pub fn union(&mut self, p: usize, q: usize)
        requires
            p < old(self).len(),
            q < old(self).len(),
        ensures
            final(self).len() == old(self).len(),
            forall|a: usize, b: usize|
                a < old(self).len() && b < old(self).len() ==> (#[trigger] final(self).joined(a, b)
                    <==> old(self).joined(a, b) || (old(self).joined(a, p) && old(self).joined(
                    q,
                    b,
                )) || (old(self).joined(a, q) && old(self).joined(p, b))),
    {
        let pid = self.0[p];
        let qid = self.0[q];
        let n = self.0.len();
        let mut i: usize = 0;
        while i < n
            invariant
                i <= n,
                n == self.0@.len(),
                n == old(self).0@.len(),
                pid == old(self).0@[p as int],
                qid == old(self).0@[q as int],
                forall|k: int|
                    0 <= k < i ==> self.0@[k] == if old(self).0@[k] == pid {
                        qid
                    } else {
                        old(self).0@[k]
                    },
                forall|k: int| i <= k < n ==> self.0@[k] == old(self).0@[k],
            decreases n - i,
        {
            if self.0[i] == pid {
                self.0[i] = qid;
            }
            i += 1;
        }
    }
}

} // verus!
