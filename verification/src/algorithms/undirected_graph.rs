//! Undirected graphs and their connected components.
//! The searches for paths are those of `graph_search`. Every search takes the edges at a
//! vertex from the one added last to the one added first.

pub use crate::algorithms::graph_search::{BFSPaths, DFSPaths};
use crate::algorithms::graph_search::{AdjacencyLists, label_reached, turned};
use crate::algorithms::graph_theory::{
    closed_under_edges, components_labelled, has_edge, labelled_from, lemma_component_labelled,
    lemma_count_false_bound, lemma_reachable_refl, lemma_symmetric_reachable, lemma_with_edge,
    lemma_with_edge_wf, mutually_reachable, reachable, symmetric, wf_adj, with_edge,
};
use crate::algorithms::linked_list_stack::LinkedStack;
use crate::algorithms::search_order::{
    component_labels, label_in_order, label_visit, no_links, rising, unmarked,
};
use vstd::prelude::*;

verus! {

/// An undirected graph over the vertices `0..n`: each edge stands in the
/// lists of both its ends.
pub struct UGraph {
    num_vertices: usize,
    edges: Vec<LinkedStack<usize>>,
}

impl View for UGraph {
    type V = Seq<Seq<usize>>;

    /// For each vertex its neighbours, in the order in which the edges
    /// were added.
    closed spec fn view(&self) -> Seq<Seq<usize>> {
        Seq::new(self.edges@.len(), |v: int| self.edges@[v]@.reverse())
    }
}

impl AdjacencyLists for UGraph {
    open spec fn adjacency(&self) -> Seq<Seq<usize>> {
        self@
    }

    fn vertex_count(&self) -> (n: usize) {
        self.edges.len()
    }

    open spec fn directed(&self) -> bool {
        false
    }

    fn is_directed(&self) -> (b: bool) {
        false
    }

    fn scan_list(&self, v: usize, newest_first: bool) -> (list: LinkedStack<usize>) {
        let mut list: LinkedStack<usize> = LinkedStack::new();
        let mut it = self.edges[v].iter();
        let ghost kept = self.edges@[v as int]@;
        let ghost mut i: int = 0;
        loop
            invariant
                0 <= i <= kept.len(),
                it@ == kept.skip(i),
                list@ == kept.take(i).reverse(),
            ensures
                i == kept.len(),
            decreases it@.len(),
        {
            match it.next() {
                None => {
                    break ;
                },
                Some(head) => {
                    list.push(*head);
                    proof {
                        assert(kept.skip(i).skip(1) =~= kept.skip(i + 1));
                        assert(seq![kept[i]] + kept.take(i).reverse() =~= kept.take(
                            i + 1,
                        ).reverse());
                        i = i + 1;
                    }
                },
            }
        }
        proof {
            assert(kept.take(i) =~= kept);
            assert(kept.reverse().reverse() =~= kept);
        }
        if newest_first {
            turned(list)
        } else {
            list
        }
    }
}

impl UGraph {
    /// The number of vertices that the graph was made with.
    pub closed spec fn num_vertices(&self) -> usize {
        self.num_vertices
    }

    /// The vertex count agrees with the lists, every edge ends at a
    /// vertex of the graph, and every edge stands in both directions.
    pub open spec fn wf(&self) -> bool {
        self.num_vertices() == self@.len() && wf_adj(self@) && symmetric(self@)
    }

    /// A graph of `num_vertices` vertices without edges.
    pub fn new(num_vertices: usize) -> (g: Self)
        ensures
            g.wf(),
            g@ == Seq::new(num_vertices as nat, |v: int| Seq::<usize>::empty()),
    {
        let mut edges: Vec<LinkedStack<usize>> = Vec::new();
        let mut v: usize = 0;
        while v < num_vertices
            invariant
                v <= num_vertices,
                edges@.len() == v,
                forall|u: int| 0 <= u < v ==> edges@[u]@ == Seq::<usize>::empty(),
            decreases num_vertices - v,
        {
            edges.push(LinkedStack::new());
            v += 1;
        }
        let g = UGraph { num_vertices, edges };
        proof {
            assert(g@ =~= Seq::new(num_vertices as nat, |v: int| Seq::<usize>::empty()));
            assert forall|a: usize, b: usize| #[trigger] has_edge(g@, a, b) implies has_edge(
                g@,
                b,
                a,
            ) by {
                assert(g@[a as int].len() == 0);
            }
        }
        g
    }

    /// Adds the edge between `v` and `w`: `w` to the list of `v`, then
    /// `v` to the list of `w`.
    pub fn add_edge(&mut self, v: usize, w: usize)
        requires
            old(self).wf(),
            v < old(self)@.len(),
            w < old(self)@.len(),
        ensures
            final(self).wf(),
            final(self)@ == with_edge(with_edge(old(self)@, v, w), w, v),
    {
        self.edges[v].push(w);
        self.edges[w].push(v);
        proof {
            let first = with_edge(old(self)@, v, w);
            let both = with_edge(first, w, v);
            let kept = old(self).edges@;
            assert forall|u: int| 0 <= u < both.len() implies self@[u] == both[u] by {
                if u == v && v == w {
                    assert((seq![v] + (seq![w] + kept[u]@)).reverse() =~= kept[u]@.reverse().push(
                        w,
                    ).push(v));
                } else if u == v {
                    assert((seq![w] + kept[u]@).reverse() =~= kept[u]@.reverse().push(w));
                } else if u == w {
                    assert((seq![v] + kept[u]@).reverse() =~= kept[u]@.reverse().push(v));
                }
            }
            assert(self@ =~= both);
            lemma_with_edge_wf(old(self)@, v, w);
            lemma_with_edge_wf(first, w, v);
            assert forall|a: usize, b: usize| #[trigger] has_edge(both, a, b) implies has_edge(
                both,
                b,
                a,
            ) by {
                lemma_with_edge(old(self)@, v, w, a, b);
                lemma_with_edge(first, w, v, a, b);
                lemma_with_edge(old(self)@, v, w, b, a);
                lemma_with_edge(first, w, v, b, a);
                if has_edge(old(self)@, a, b) {
                    assert(has_edge(old(self)@, b, a));
                }
            }
        }
    }

    /// The neighbours of `v` as a stack, the one of the edge added last on top.
    pub fn get_adj_edges<'a>(&'a self, v: usize) -> (adj: &'a LinkedStack<usize>)
        requires
            v < self@.len(),
        ensures
            adj@ == self@[v as int].reverse(),
    {
        proof {
            assert(self.edges@[v as int]@.reverse().reverse() =~= self.edges@[v as int]@);
        }
        &self.edges[v]
    }

    /// The stack of the neighbours of `v`, to be changed in place. For
    /// the graph to stay well formed, what is put into it has to be a
    /// vertex of the graph, and `v` has to be put into the list of that vertex.
    pub fn get_adj_edges_mut<'a>(&'a mut self, v: usize) -> (adj: &'a mut LinkedStack<usize>)
        requires
            v < old(self)@.len(),
        ensures
            adj@ == old(self)@[v as int].reverse(),
            final(self)@ == old(self)@.update(v as int, final(adj)@.reverse()),
            final(self).num_vertices() == old(self).num_vertices(),
    {
        let adj = &mut self.edges[v];
        proof {
            assert(after_borrow(*self)@ =~= old(self)@.update(v as int, final(adj)@.reverse()));
            assert(old(self).edges@[v as int]@.reverse().reverse() =~= old(
                self,
            ).edges@[v as int]@);
        }
        adj
    }
}

/// The connected components of an undirected graph: a label for each
/// vertex, the same for two vertices exactly when a walk joins them.
/// The component of vertex 0 has label 0, and each further label goes to
/// the component of the smallest vertex that has none yet.
pub struct ConnectedComponents {
    marked: Vec<bool>,
    id: Vec<Option<usize>>,
    pub count: usize,
    graph: Ghost<Seq<Seq<usize>>>,
    roots: Ghost<Seq<usize>>,
}

impl ConnectedComponents {
    /// The graph that was searched.
    pub closed spec fn graph(&self) -> Seq<Seq<usize>> {
        self.graph@
    }

    /// The label of each vertex.
    pub closed spec fn ids(&self) -> Seq<Option<usize>> {
        self.id@
    }

    /// The number of components: the value of the field `count`.
    pub closed spec fn components(&self) -> usize {
        self.count
    }

    /// For each label the smallest vertex that has it.
    pub closed spec fn roots(&self) -> Seq<usize> {
        self.roots@
    }

    /// For each label in use `roots` holds the vertex the search of its
    /// component started from: the smallest of the component, and larger
    /// than those of the labels before it.
    spec fn roots_ok(&self, upto: int) -> bool {
        &&& self.roots@.len() == self.count
        &&& forall|c: int|
            0 <= c < self.count
                ==> (#[trigger] self.roots@[c]) < upto && self.id@[self.roots@[c] as int]
                == Some(c as usize)
        &&& forall|c: int, d: int|
            0 <= c < d < self.count ==> (#[trigger] self.roots@[c]) < (#[trigger] self.roots@[d])
        &&& forall|u: int|
            0 <= u < self.graph@.len() && #[trigger] self.marked@[u]
                ==> self.roots@[self.id@[u]->0 as int]
                <= u
    }

    /// The marked vertices are whole components, labelled `0..count`.
    spec fn labelled(&self) -> bool {
        &&& symmetric(self.graph@)
        &&& components_labelled(self.graph@, self.marked@, self.id@, self.count)
    }

    /// The labelling is complete.
    pub closed spec fn wf(&self) -> bool {
        &&& self.labelled()
        &&& self.roots_ok(self.graph@.len() as int)
        &&& forall|u: int| 0 <= u < self.graph@.len() ==> self.marked@[u]
        &&& self.id@ == component_labels(self.graph@).0
        &&& self.count == component_labels(self.graph@).1
    }

    /// What a complete labelling says, in terms of the labels alone:
    /// every vertex has a label below `count`, two vertices have the same
    /// label exactly when a walk joins them, and the labels follow the
    /// order of the smallest vertices of the components.
    pub proof fn lemma_labels(&self)
        requires
            self.wf(),
        ensures
            self.ids() == component_labels(self.graph()).0,
            self.components() == component_labels(self.graph()).1,
            self.ids().len() == self.graph().len(),
            self.roots().len() == self.components(),
            forall|u: int|
                0 <= u < self.graph().len() ==> (#[trigger] self.ids()[u]) is Some
                    && self.ids()[u]->0 < self.components(),
            forall|u: usize, w: usize|
                u < self.graph().len() && w < self.graph().len() ==> (self.ids()[u as int]
                    == self.ids()[w as int] <==> #[trigger] reachable(self.graph(), u, w)),
            forall|c: int|
                0 <= c < self.components() ==> (#[trigger] self.roots()[c]) < self.graph().len()
                    && self.ids()[self.roots()[c] as int] == Some(c as usize),
            forall|c: int, d: int|
                0 <= c < d < self.components() ==> (#[trigger] self.roots()[c]) < (
                #[trigger] self.roots()[d]),
            forall|u: int|
                0 <= u < self.graph().len() ==> self.roots()[(#[trigger] self.ids()[u])->0 as int]
                    <= u,
    {
        assert forall|u: int| 0 <= u < self.graph@.len() implies (#[trigger] self.id@[u]) is Some
            && self.id@[u]->0 < self.count by {
            assert(self.marked@[u]);
        }
        assert forall|u: usize, w: usize|
            u < self.graph@.len() && w < self.graph@.len() implies (self.id@[u as int]
            == self.id@[w as int] <==> #[trigger] reachable(self.graph@, u, w)) by {
            assert(self.marked@[u as int] && self.marked@[w as int]);
            assert(self.id@[u as int] == self.id@[w as int] <==> mutually_reachable(
                self.graph@,
                u,
                w,
            ));
            if reachable(self.graph@, u, w) {
                lemma_symmetric_reachable(self.graph@, u, w);
            }
        }
        assert forall|u: int| 0 <= u < self.graph@.len() implies self.roots@[(
        #[trigger] self.id@[u])->0 as int] <= u by {
            assert(self.marked@[u]);
        }
    }

    /// Labels the components: each vertex without a label, in rising
    /// order, starts a depth-first search that gives the next label to all
    /// it reaches.
    pub fn new(g: &UGraph) -> (cc: Self)
        requires
            g.wf(),
        ensures
            cc.wf(),
            cc.graph() == g@,
            cc.ids() == component_labels(g@).0,
            cc.components() == component_labels(g@).1,
    {
        let n = g.vertex_count();
        let mut marked: Vec<bool> = Vec::new();
        let mut id: Vec<Option<usize>> = Vec::new();
        let mut k: usize = 0;
        while k < n
            invariant
                k <= n,
                marked@.len() == k,
                id@.len() == k,
                forall|u: int| 0 <= u < k ==> !marked@[u],
                forall|u: int| 0 <= u < k ==> id@[u] is None,
            decreases n - k,
        {
            marked.push(false);
            id.push(None);
            k += 1;
        }
        let mut cc = ConnectedComponents {
            marked,
            id,
            count: 0,
            graph: Ghost(g@),
            roots: Ghost(Seq::empty()),
        };
        proof {
            lemma_count_false_bound(cc.marked@);
            assert(cc.marked@ =~= unmarked(g@.len()));
            assert(cc.id@ =~= no_links(g@.len()));
        }
        let ghost order = rising(g@.len());
        let ghost goal = label_in_order(g@, cc.marked@, cc.id@, 0, order, 0);
        let mut v: usize = 0;
        while v < n
            invariant
                order == rising(g@.len()),
                label_in_order(g@, cc.marked@, cc.id@, cc.count as nat, order, v as int) == goal,
                g.wf(),
                n == g@.len(),
                v <= n,
                cc.graph@ == g@,
                cc.labelled(),
                cc.roots_ok(v as int),
                forall|u: int| 0 <= u < v ==> cc.marked@[u],
            decreases n - v,
        {
            if !cc.marked[v] {
                let ghost pre = cc;
                proof {
                    lemma_count_false_bound(cc.marked@);
                }
                cc.dfs(g, v);
                proof {
                    assert forall|x: usize|
                        x < n && !pre.marked@[x as int] && cc.marked@[x as int]
                            implies #[trigger] mutually_reachable(
                        g@,
                        v,
                        x,
                    ) by {
                        lemma_symmetric_reachable(g@, v, x);
                    }
                    lemma_component_labelled(g@, pre.marked@, pre.id@, pre.count, cc.marked@,
                        cc.id@, v);
                }
                cc.roots = Ghost(pre.roots@.push(v));
                cc.count = cc.count + 1;
                proof {
                    assert forall|c: int| 0 <= c < cc.count
                        implies (#[trigger] cc.roots@[c]) < v + 1
                        && cc.id@[cc.roots@[c] as int] == Some(c as usize) by {
                        if c < pre.count {
                            assert(pre.roots@[c] == cc.roots@[c]);
                            assert(pre.marked@[pre.roots@[c] as int]);
                            assert(cc.id@[pre.roots@[c] as int] == pre.id@[pre.roots@[c] as int]);
                        }
                    }
                    assert forall|c: int, d: int| 0 <= c < d < cc.count implies (
                    #[trigger] cc.roots@[c]) < (#[trigger] cc.roots@[d]) by {
                        assert(pre.roots@[c] == cc.roots@[c]);
                        if d < pre.count {
                            assert(pre.roots@[d] == cc.roots@[d]);
                        }
                    }
                    assert forall|u: int|
                        0 <= u < cc.graph@.len() && #[trigger] cc.marked@[u]
                            implies cc.roots@[cc.id@[u]->0 as int]
                        <= u by {
                        if pre.marked@[u] {
                            assert(cc.id@[u] == pre.id@[u]);
                            assert(pre.roots@[pre.id@[u]->0 as int]
                                == cc.roots@[pre.id@[u]->0 as int]);
                        } else {
                            // what was not marked before is no smaller than the new root
                            assert(u >= v);
                        }
                    }
                }
            } else {
                proof {
                    assert forall|c: int| 0 <= c < cc.count
                        implies (#[trigger] cc.roots@[c]) < v + 1
                        && cc.id@[cc.roots@[c] as int] == Some(c as usize) by {}
                }
            }
            v += 1;
        }
        cc
    }

    /// The number of components.
    pub fn count(&self) -> (n: usize)
        ensures
            n == self.components(),
    {
        self.count
    }

    /// The label of the component of `v`.
    pub fn id(&self, v: usize) -> (c: Option<usize>)
        requires
            self.wf(),
            v < self.graph().len(),
        ensures
            c == self.ids()[v as int],
            c is Some,
            c->0 < self.components(),
    {
        proof {
            self.lemma_labels();
        }
        self.id[v]
    }

    /// Marks every vertex that a walk joins to `v` and gives it the label `count`.
    fn dfs(&mut self, g: &UGraph, v: usize)
        requires
            g.wf(),
            old(self).graph@ == g@,
            old(self).marked@.len() == g@.len(),
            old(self).id@.len() == g@.len(),
            closed_under_edges(g@, old(self).marked@),
            v < g@.len(),
            !old(self).marked@[v as int],
        ensures
            (final(self).marked@, final(self).id@) == label_visit(
                g@,
                old(self).marked@,
                old(self).id@,
                old(self).count,
                v,
                g@.len(),
            ),
            final(self).graph@ == g@,
            final(self).count == old(self).count,
            final(self).roots@ == old(self).roots@,
            labelled_from(
                g@,
                old(self).marked@,
                old(self).id@,
                final(self).marked@,
                final(self).id@,
                old(self).count,
                v,
            ),
    {
        proof {
            lemma_reachable_refl(g@, v);
            lemma_count_false_bound(self.marked@);
        }
        label_reached(
            g,
            &mut self.marked,
            &mut self.id,
            self.count,
            v,
            Ghost(Set::empty()),
            Ghost(v),
            Ghost(g@.len()),
        );
    }
}

} // verus!
