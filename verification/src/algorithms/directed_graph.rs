//! Directed graphs: reversal, reverse postorder, directed cycles and strongly connected components.
//! The searches for paths are those of `graph_search`. A graph keeps the edges out of each
//! vertex in the order in which they were added; a depth-first search follows them from the
//! one added last to the one added first, a breadth-first search in the order of the list.

use crate::algorithms::graph_theory::{
    closed_under_edges, components_labelled, copies, count_false, count_in, edges_into,
    edges_turned, follows_links, has_edge, is_cycle, is_dag, is_path, is_reverse_postorder,
    label_used, labelled_from, lemma_component_labelled, lemma_count_false_bound,
    lemma_count_false_mark, lemma_count_false_none, lemma_edge_reachable, lemma_path_extend,
    lemma_path_vertex, lemma_reachable_refl, lemma_reachable_trans, lemma_reverse_reachable,
    lemma_reversed_edges, lemma_suffix_marked, link_ok, mutually_reachable, path_from_to, reachable,
    reversed, step_ok, wf_adj, with_edge, lemma_with_edge_wf,
};
pub use crate::algorithms::graph_search::{BFSPaths, DFSPaths};
use crate::algorithms::graph_search::{AdjacencyLists, label_reached, turned};
use crate::algorithms::linked_list_queue::LinkedQueue;
use crate::algorithms::linked_list_stack::LinkedStack;
use crate::algorithms::search_order::{
    closed_cycle, cycle_all, cycle_scan, cycle_visit, first_cycle, label_in_order, label_visit,
    lemma_closed_cycle, no_links, post_all, post_scan, post_visit, reverse_postorder, strong_labels,
    unmarked, CycleSearch, lemma_scan_order, scan_order,
};
use vstd::prelude::*;

verus! {

/// A directed graph over the vertices `0..n`, with one list of out-edges
/// for each vertex.
pub struct DGraph {
    num_vertices: usize,
    edges: Vec<LinkedQueue<usize>>,
}

impl View for DGraph {
    type V = Seq<Seq<usize>>;

    /// For each vertex the heads of its out-edges, in the order in which
    /// the edges were added.
    closed spec fn view(&self) -> Seq<Seq<usize>> {
        Seq::new(self.edges@.len(), |v: int| self.edges@[v]@)
    }
}

impl AdjacencyLists for DGraph {
    open spec fn adjacency(&self) -> Seq<Seq<usize>> {
        self@
    }

    fn vertex_count(&self) -> (n: usize) {
        self.edges.len()
    }

    open spec fn directed(&self) -> bool {
        true
    }

    fn is_directed(&self) -> (b: bool) {
        true
    }

    fn scan_list(&self, v: usize, newest_first: bool) -> (list: LinkedStack<usize>) {
        let mut list: LinkedStack<usize> = LinkedStack::new();
        let mut it = self.edges[v].iter();
        let ghost all = self@[v as int];
        let ghost mut i: int = 0;
        loop
            invariant
                0 <= i <= all.len(),
                it@ == all.skip(i),
                list@ == all.take(i).reverse(),
            ensures
                i == all.len(),
            decreases it@.len(),
        {
            match it.next() {
                None => {
                    break ;
                },
                Some(head) => {
                    list.push(*head);
                    proof {
                        assert(all.skip(i).skip(1) =~= all.skip(i + 1));
                        assert(seq![all[i]] + all.take(i).reverse() =~= all.take(i + 1).reverse());
                        i = i + 1;
                    }
                },
            }
        }
        proof {
            assert(all.take(i) =~= all);
        }
        if newest_first {
            list
        } else {
            proof {
                assert(all.reverse().reverse() =~= all);
            }
            turned(list)
        }
    }
}

impl DGraph {
    /// The number of vertices that the graph was made with.
    pub closed spec fn num_vertices(&self) -> usize {
        self.num_vertices
    }

    /// The vertex count agrees with the lists, and every edge ends at a
    /// vertex of the graph.
    pub open spec fn wf(&self) -> bool {
        self.num_vertices() == self@.len() && wf_adj(self@)
    }

    /// A graph of `num_vertices` vertices without edges.
    pub fn new(num_vertices: usize) -> (g: Self)
        ensures
            g.wf(),
            g@ == Seq::new(num_vertices as nat, |v: int| Seq::<usize>::empty()),
    {
        let mut edges: Vec<LinkedQueue<usize>> = Vec::new();
        let mut v: usize = 0;
        while v < num_vertices
            invariant
                v <= num_vertices,
                edges@.len() == v,
                forall|u: int| 0 <= u < v ==> edges@[u]@ == Seq::<usize>::empty(),
            decreases num_vertices - v,
        {
            edges.push(LinkedQueue::new());
            v += 1;
        }
        let g = DGraph { num_vertices, edges };
        assert(g@ =~= Seq::new(num_vertices as nat, |v: int| Seq::<usize>::empty()));
        g
    }

    /// Adds an edge from `v` to `w`. The graph may hold the same edge
    /// more than once, and edges from a vertex to itself.
    pub fn add_edge(&mut self, v: usize, w: usize)
        requires
            old(self).wf(),
            v < old(self)@.len(),
            w < old(self)@.len(),
        ensures
            final(self).wf(),
            final(self)@ == with_edge(old(self)@, v, w),
    {
        self.edges[v].enqueue(w);
        proof {
            assert(self@ =~= with_edge(old(self)@, v, w));
            lemma_with_edge_wf(old(self)@, v, w);
        }
    }

    /// The list of the edges out of `v`, in the order in which they were added.
    pub fn get_adj_edges<'a>(&'a self, v: usize) -> (adj: &'a LinkedQueue<usize>)
        requires
            v < self@.len(),
        ensures
            adj@ == self@[v as int],
    {
        &self.edges[v]
    }

    /// The list of the edges out of `v`, to be changed in place. What
    /// is put into it has to be a vertex of the graph for the graph to
    /// stay well formed.
    pub fn get_adj_edges_mut<'a>(&'a mut self, v: usize) -> (adj: &'a mut LinkedQueue<usize>)
        requires
            v < old(self)@.len(),
        ensures
            adj@ == old(self)@[v as int],
            final(self)@ == old(self)@.update(v as int, final(adj)@),
            final(self).num_vertices() == old(self).num_vertices(),
    {
        let adj = &mut self.edges[v];
        proof {
            assert(after_borrow(*self)@ =~= old(self)@.update(v as int, final(adj)@));
        }
        adj
    }

    /// A new graph over the same vertices with every edge turned round.
    /// The edges are added vertex by vertex, each vertex with its edges
    /// in the order of its list, so each list of the result holds the
    /// smaller tails first.
    pub fn reverse(&self) -> (r: DGraph)
        requires
            self.wf(),
        ensures
            r.wf(),
            r@ == reversed(self@),
            r@.len() == self@.len(),
            forall|v: usize, w: usize| has_edge(r@, w, v) <==> has_edge(self@, v, w),
    {
        let n = self.num_vertices;
        let mut edges: Vec<LinkedQueue<usize>> = Vec::new();
        let mut v: usize = 0;
        while v < n
            invariant
                v <= n,
                edges@.len() == v,
                forall|u: int| 0 <= u < v ==> edges@[u]@ == Seq::<usize>::empty(),
            decreases n - v,
        {
            edges.push(LinkedQueue::new());
            v += 1;
        }
        v = 0;
        while v < n
            invariant
                self.wf(),
                n == self.num_vertices,
                v <= n,
                edges@.len() == n,
                forall|w: int| 0 <= w < n ==> edges@[w]@ == edges_into(self@, w as usize, v as int),
            decreases n - v,
        {
            let mut it = self.edges[v].iter();
            let ghost mut i: int = 0;
            let ghost list = self@[v as int];
            assert(list.take(0) =~= Seq::<usize>::empty());
            assert forall|w: int| 0 <= w < n implies edges@[w]@ == edges_into(
                self@,
                w as usize,
                v as int,
            ) + copies(count_in(list.take(0), w as usize), v) by {
                assert(edges_into(self@, w as usize, v as int) + copies(0, v) =~= edges_into(
                    self@,
                    w as usize,
                    v as int,
                ));
            }
            loop
                invariant
                    self.wf(),
                    n == self.num_vertices,
                    v < n,
                    edges@.len() == n,
                    list == self@[v as int],
                    0 <= i <= list.len(),
                    it@ == list.skip(i),
                    forall|w: int|
                        0 <= w < n ==> edges@[w]@ == edges_into(self@, w as usize, v as int)
                            + copies(count_in(list.take(i), w as usize), v),
                ensures
                    i == list.len(),
                decreases it@.len(),
            {
                match it.next() {
                    None => {
                        break ;
                    },
                    Some(head) => {
                        let w = *head;
                        assert(w == list[i]);
                        assert(w < n);
                        let ghost before = edges@;
                        edges[w].enqueue(v);
                        proof {
                            assert(list.take(i + 1).drop_last() =~= list.take(i));
                            assert(list.skip(i).skip(1) =~= list.skip(i + 1));
                            assert forall|x: int| 0 <= x < n implies edges@[x]@ == edges_into(
                                self@,
                                x as usize,
                                v as int,
                            ) + copies(count_in(list.take(i + 1), x as usize), v) by {
                                if x == w {
                                    let k = count_in(list.take(i), w);
                                    assert(copies(k, v).push(v) =~= copies(k + 1, v));
                                    assert((edges_into(self@, w, v as int) + copies(k, v)).push(v)
                                        =~= edges_into(self@, w, v as int) + copies(k + 1, v));
                                } else {
                                    assert(edges@[x] == before[x]);
                                }
                            }
                            i = i + 1;
                        }
                    },
                }
            }
            proof {
                assert(list.take(i) =~= list);
            }
            v += 1;
        }
        let r = DGraph { num_vertices: n, edges };
        proof {
            assert(r@ =~= reversed(self@));
            lemma_reversed_edges(self@);
        }
        r
    }
}

/// The vertices from place `start[j]` to place `j` of `post` are reached
/// from the one at place `j`, and no earlier vertex has an edge to any of them.
spec fn seg_ok(adj: Seq<Seq<usize>>, post: Seq<usize>, start: Seq<int>, j: int) -> bool {
    &&& 0 <= start[j] <= j
    &&& forall|k: int| start[j] <= k <= j ==> reachable(adj, post[j], #[trigger] post[k])
    &&& forall|a: int, k: int|
        0 <= a < start[j] && start[j] <= k <= j ==> !#[trigger] has_edge(adj, post[a], post[k])
}

/// The vertices of a graph in the reverse of the order in which a
/// depth-first search over all of them leaves them.
pub struct TopologicalSort {
    marked: Vec<bool>,
    reverse_post: LinkedStack<usize>,
    graph: Ghost<Seq<Seq<usize>>>,
    post: Ghost<Seq<usize>>,
    start: Ghost<Seq<int>>,
    pos: Ghost<Seq<int>>,
}

impl TopologicalSort {
    /// The graph that was searched.
    pub closed spec fn graph(&self) -> Seq<Seq<usize>> {
        self.graph@
    }

    /// The vertices in the order in which `reverse_post` hands them out:
    /// the one the search left last comes first.
    pub closed spec fn order(&self) -> Seq<usize> {
        self.reverse_post@
    }

    /// Every edge out of a vertex that the search has left leads to a
    /// marked vertex.
    spec fn finished_closed(&self) -> bool {
        forall|k: int, i: int|
            0 <= k < self.post@.len() && 0 <= i < self.graph@[self.post@[k] as int].len()
                ==> self.marked@[(#[trigger] self.graph@[self.post@[k] as int][i]) as int]
    }

    /// What holds while the search is under way: the vertices that are
    /// marked are those that the search has left, at their places in the
    /// postorder, and those in `open`, `depth` in number.
    spec fn inv(&self, open: Set<usize>, depth: nat) -> bool {
        &&& wf_adj(self.graph@)
        &&& self.marked@.len() == self.graph@.len()
        &&& self.pos@.len() == self.graph@.len()
        &&& self.start@.len() == self.post@.len()
        &&& self.reverse_post@ == self.post@.reverse()
        &&& forall|k: int|
            0 <= k < self.post@.len() ==> (#[trigger] self.post@[k]) < self.graph@.len()
                && self.marked@[self.post@[k] as int] && !open.contains(self.post@[k])
                && self.pos@[self.post@[k] as int] == k
        &&& forall|u: int|
            0 <= u < self.graph@.len() && #[trigger] self.marked@[u] && !open.contains(u as usize)
                ==> 0 <= self.pos@[u] < self.post@.len() && self.post@[self.pos@[u]] == u
        &&& forall|u: usize|
            #[trigger] open.contains(u) ==> u < self.graph@.len() && self.marked@[u as int]
        &&& self.finished_closed()
        &&& forall|j: int|
            0 <= j < self.post@.len() ==> #[trigger] seg_ok(self.graph@, self.post@, self.start@, j)
        &&& self.post@.len() + depth + count_false(self.marked@) == self.graph@.len()
    }

    /// The search is complete: every vertex has been left.
    pub closed spec fn wf(&self) -> bool {
        &&& self.inv(Set::empty(), 0)
        &&& forall|u: int| 0 <= u < self.graph@.len() ==> self.marked@[u]
        &&& self.reverse_post@ == reverse_postorder(self.graph@)
    }

    /// What the finished search says of the order it found.
    pub proof fn lemma_order(&self)
        requires
            self.wf(),
        ensures
            self.order() == reverse_postorder(self.graph()),
            is_reverse_postorder(self.graph(), self.order()),
    {
        let adj = self.graph@;
        let order = self.reverse_post@;
        let post = self.post@;
        let n = post.len() as int;
        lemma_count_false_none(self.marked@);
        assert(n == adj.len());
        assert forall|a: int| 0 <= a < n implies order[a] == post[n - 1 - a] by {}
        assert forall|u: usize| u < adj.len() implies #[trigger] order.contains(u) by {
            assert(self.marked@[u as int]);
            let k = self.pos@[u as int];
            assert(order[n - 1 - k] == u);
        }
        assert forall|a: int, b: int| 0 <= a < b < order.len() implies (#[trigger] order[a]) != (
        #[trigger] order[b]) by {
            assert(self.pos@[post[n - 1 - a] as int] == n - 1 - a);
            assert(self.pos@[post[n - 1 - b] as int] == n - 1 - b);
        }
        assert forall|a: int, b: int|
            0 <= a < order.len() && 0 <= b < order.len() && #[trigger] has_edge(
                adj,
                order[a],
                order[b],
            ) implies a < b || reachable(adj, order[b], order[a]) by {
            if a >= b {
                // the head of the edge was left after its tail
                let j = n - 1 - b;
                let k = n - 1 - a;
                assert(seg_ok(adj, post, self.start@, j));
                assert(post[k] == order[a] && post[j] == order[b]);
                if k < self.start@[j] {
                    assert(!has_edge(adj, post[k], post[j]));
                }
            }
        }
    }

    /// A walk against the edges that starts at the vertex at place `j` of
    /// the postorder and meets no vertex of a later place stays among the
    /// vertices that this one reaches.
    proof fn lemma_walk_in_segment(&self, p: Seq<usize>, j: int, k: int)
        requires
            self.wf(),
            0 <= j < self.post@.len(),
            p.len() > 0,
            p[0] == self.post@[j],
            forall|m: int|
                0 <= m < p.len() ==> (#[trigger] p[m]) < self.graph@.len() && self.pos@[p[m] as int]
                    <= j,
            forall|m: int| 0 <= m < p.len() - 1 ==> #[trigger] step_ok(self.graph@, p.reverse(), m),
            0 <= k < p.len(),
        ensures
            self.start@[j] <= self.pos@[p[k] as int] <= j,
            reachable(self.graph@, self.post@[j], p[k]),
        decreases k,
    {
        assert(seg_ok(self.graph@, self.post@, self.start@, j));
        if k > 0 {
            self.lemma_walk_in_segment(p, j, k - 1);
            let a = self.pos@[p[k - 1] as int];
            let b = self.pos@[p[k] as int];
            assert(self.marked@[p[k] as int] && self.marked@[p[k - 1] as int]);
            assert(self.post@[b] == p[k]);
            assert(self.post@[a] == p[k - 1]);
            let q = p.reverse();
            let m = p.len() - 1 - k;
            assert(step_ok(self.graph@, q, m));
            assert(q[m] == p[k] && q[m + 1] == p[k - 1]);
            if b < self.start@[j] {
                assert(!has_edge(self.graph@, self.post@[b], self.post@[a]));
            }
        }
    }

    /// Searches the graph depth first from every vertex not yet reached,
    /// in rising order, and lists the vertices as the search leaves them.
    /// The search does not look for cycles: where the graph has one, the
    /// order it finds is no topological order, for there is none.
    pub fn new(g: &DGraph) -> (ts: Self)
        requires
            g.wf(),
        ensures
            ts.wf(),
            ts.graph() == g@,
            ts.order() == reverse_postorder(g@),
            is_reverse_postorder(g@, ts.order()),
    {
        let n = g.num_vertices;
        let mut marked: Vec<bool> = Vec::new();
        let mut k: usize = 0;
        while k < n
            invariant
                k <= n,
                marked@.len() == k,
                forall|u: int| 0 <= u < k ==> !marked@[u],
                count_false(marked@) == k,
            decreases n - k,
        {
            let ghost before = marked@;
            marked.push(false);
            assert(marked@.drop_last() =~= before);
            k += 1;
        }
        let mut ts = TopologicalSort {
            marked,
            reverse_post: LinkedStack::new(),
            graph: Ghost(g@),
            post: Ghost(Seq::empty()),
            start: Ghost(Seq::empty()),
            pos: Ghost(Seq::new(n as nat, |u: int| 0int)),
        };
        assert(ts.reverse_post@ =~= ts.post@.reverse());
        assert(ts.marked@ =~= unmarked(g@.len()));
        let ghost goal = post_all(g@, ts.marked@, ts.post@, 0);
        let mut v: usize = 0;
        while v < n
            invariant
                g.wf(),
                n == g@.len(),
                v <= n,
                ts.graph@ == g@,
                ts.inv(Set::empty(), 0),
                forall|u: int| 0 <= u < v ==> ts.marked@[u],
                post_all(g@, ts.marked@, ts.post@, v as int) == goal,
            decreases n - v,
        {
            if !ts.marked[v] {
                proof {
                    lemma_count_false_bound(ts.marked@);
                }
                ts.dfs(g, v, Ghost(Set::empty()), Ghost(0), Ghost(g@.len()));
            }
            v += 1;
        }
        proof {
            ts.lemma_order();
        }
        ts
    }

    /// The vertices, the one that the search left last on top.
    pub fn reverse_post(&self) -> (r: &LinkedStack<usize>)
        ensures
            r@ == self.order(),
    {
        &self.reverse_post
    }

    /// The stack of the vertices itself, to be changed in place.
    pub fn reverse_post_mut(&mut self) -> (r: &mut LinkedStack<usize>)
        ensures
            r@ == old(self).order(),
            final(self).order() == final(r)@,
            final(self).graph() == old(self).graph(),
    {
        &mut self.reverse_post
    }

    /// Marks `v`, follows its edges to unmarked vertices in the order of
    /// its list, and then puts `v` on the stack. `open` holds the
    /// vertices whose edges are still being followed, `depth` their
    /// number, and `fuel` bounds how deep the search that defines the
    /// result may go.
    fn dfs(
        &mut self,
        g: &DGraph,
        v: usize,
        Ghost(open): Ghost<Set<usize>>,
        Ghost(depth): Ghost<nat>,
        Ghost(fuel): Ghost<nat>,
    )
        requires
            g.wf(),
            old(self).graph@ == g@,
            old(self).inv(open, depth),
            v < g@.len(),
            !old(self).marked@[v as int],
            fuel >= count_false(old(self).marked@),
        ensures
            (final(self).marked@, final(self).post@) == post_visit(
                g@,
                old(self).marked@,
                old(self).post@,
                v,
                fuel,
            ),
            final(self).graph@ == g@,
            final(self).inv(open, depth),
            final(self).marked@[v as int],
            forall|u: int|
                0 <= u < g@.len() && old(self).marked@[u] ==> #[trigger] final(self).marked@[u],
            count_false(final(self).marked@) < count_false(old(self).marked@),
            final(self).post@.len() > old(self).post@.len(),
            final(self).post@.take(old(self).post@.len() as int) == old(self).post@,
            final(self).start@.take(old(self).post@.len() as int) == old(self).start@,
            final(self).post@.last() == v,
            forall|k: int|
                old(self).post@.len() <= k < final(self).post@.len() ==> !old(self).marked@[(
                #[trigger] final(self).post@[k]) as int] && reachable(g@, v, final(self).post@[k]),
        decreases count_false(old(self).marked@),
    {
        self.marked[v] = true;
        proof {
            lemma_count_false_mark(old(self).marked@, v as int);
            lemma_reachable_refl(g@, v);
        }
        let edges = g.scan_list(v, true);
        let mut it = edges.iter();
        let ghost mut i: int = 0;
        let ghost list = scan_order(g@[v as int], true);
        let ghost inner = open.insert(v);
        let ghost base = old(self).post@.len() as int;
        assert(self.post@.take(base) =~= old(self).post@);
        assert(self.start@.take(base) =~= old(self).start@);
        let ghost rest = (fuel - 1) as nat;
        let ghost goal = post_scan(g@, self.marked@, self.post@, v, 0, rest);
        loop
            invariant
                fuel >= count_false(old(self).marked@),
                rest == fuel - 1,
                post_scan(g@, self.marked@, self.post@, v, i, rest) == goal,
                g.wf(),
                self.graph@ == g@,
                v < g@.len(),
                list == scan_order(g@[v as int], true),
                0 <= i <= list.len(),
                it@ == list.skip(i),
                inner == open.insert(v),
                base == old(self).post@.len(),
                old(self).inv(open, depth),
                !old(self).marked@[v as int],
                self.inv(inner, depth + 1),
                self.marked@[v as int],
                forall|j: int| 0 <= j < i ==> self.marked@[(#[trigger] list[j]) as int],
                forall|u: int|
                    0 <= u < g@.len() && old(self).marked@[u] ==> #[trigger] self.marked@[u],
                count_false(self.marked@) < count_false(old(self).marked@),
                self.post@.len() >= base,
                self.post@.take(base) == old(self).post@,
                self.start@.take(base) == old(self).start@,
                forall|k: int|
                    base <= k < self.post@.len()
                        ==> !old(self).marked@[(#[trigger] self.post@[k]) as int]
                        && reachable(g@, v, self.post@[k]),
            ensures
                i == list.len(),
            decreases it@.len(),
        {
            match it.next() {
                None => {
                    break ;
                },
                Some(head) => {
                    let w = *head;
                    assert(w == list[i]);
                    assert(list.skip(i).skip(1) =~= list.skip(i + 1));
                    if !self.marked[w] {
                        let ghost pre = *self;
                        self.dfs(g, w, Ghost(inner), Ghost(depth + 1), Ghost(rest));
                        proof {
                            let len0 = pre.post@.len() as int;
                            lemma_scan_order(g@[v as int], true, i);
                            assert(has_edge(g@, v, w));
                            lemma_edge_reachable(g@, v, w);
                            assert(self.post@.take(base) =~= self.post@.take(len0).take(base));
                            assert(self.start@.take(base) =~= self.start@.take(len0).take(base));
                            assert forall|k: int| base <= k < self.post@.len() implies !old(
                                self,
                            ).marked@[(#[trigger] self.post@[k]) as int] && reachable(
                                g@,
                                v,
                                self.post@[k],
                            ) by {
                                if k < len0 {
                                    assert(self.post@[k] == self.post@.take(len0)[k]);
                                    assert(pre.post@[k] == self.post@[k]);
                                } else {
                                    lemma_reachable_trans(g@, v, w, self.post@[k]);
                                }
                            }
                            assert forall|j: int| 0 <= j < i + 1 implies self.marked@[(
                            #[trigger] list[j]) as int] by {
                                if j < i {
                                    assert(pre.marked@[list[j] as int]);
                                }
                            }
                        }
                    }
                    proof {
                        i = i + 1;
                    }
                },
            }
        }
        let ghost pre = *self;
        self.reverse_post.push(v);
        proof {
            let len = pre.post@.len() as int;
            self.post = Ghost(pre.post@.push(v));
            self.start = Ghost(pre.start@.push(base));
            self.pos = Ghost(pre.pos@.update(v as int, len));
            let post = self.post@;
            assert(self.reverse_post@ =~= post.reverse());
            assert(post.take(base) =~= pre.post@.take(base));
            assert(self.start@.take(base) =~= pre.start@.take(base));
            // the vertex was not left before
            assert forall|k: int| 0 <= k < len implies pre.post@[k] != v by {
                assert(!inner.contains(pre.post@[k]));
            }
            assert forall|k: int| 0 <= k < post.len()
                implies (#[trigger] post[k]) < self.graph@.len()
                && self.marked@[post[k] as int] && !open.contains(post[k])
                    && self.pos@[post[k] as int]
                == k by {
                if k < len {
                    assert(post[k] == pre.post@[k]);
                    assert(!inner.contains(pre.post@[k]));
                } else {
                    assert(!open.contains(v));
                }
            }
            assert forall|u: int|
                0 <= u < self.graph@.len() && #[trigger] self.marked@[u] && !open.contains(
                    u as usize,
                ) implies 0 <= self.pos@[u] < post.len() && post[self.pos@[u]] == u by {
                if u != v {
                    assert(!inner.contains(u as usize));
                    assert(pre.marked@[u]);
                    assert(post[pre.pos@[u]] == pre.post@[pre.pos@[u]]);
                }
            }
            assert forall|k: int, j: int|
                0 <= k < post.len() && 0 <= j < self.graph@[post[k] as int].len()
                    implies self.marked@[(
            #[trigger] self.graph@[post[k] as int][j]) as int] by {
                if k < len {
                    assert(post[k] == pre.post@[k]);
                    assert(pre.marked@[pre.graph@[pre.post@[k] as int][j] as int]);
                } else {
                    let all = g@[v as int];
                    lemma_scan_order(all, true, j);
                    assert(self.marked@[list[all.len() - 1 - j] as int]);
                }
            }
            assert forall|j: int| 0 <= j < post.len() implies #[trigger] seg_ok(
                self.graph@,
                post,
                self.start@,
                j,
            ) by {
                if j < len {
                    assert(seg_ok(pre.graph@, pre.post@, pre.start@, j));
                    assert forall|k: int| self.start@[j] <= k <= j implies reachable(
                        self.graph@,
                        post[j],
                        #[trigger] post[k],
                    ) by {
                        assert(post[k] == pre.post@[k]);
                    }
                    assert forall|a: int, k: int|
                        0 <= a < self.start@[j] && self.start@[j] <= k <= j
                            implies !#[trigger] has_edge(
                        self.graph@,
                        post[a],
                        post[k],
                    ) by {
                        assert(post[k] == pre.post@[k] && post[a] == pre.post@[a]);
                        assert(!has_edge(pre.graph@, pre.post@[a], pre.post@[k]));
                    }
                } else {
                    assert forall|k: int| base <= k <= j implies reachable(
                        self.graph@,
                        post[j],
                        #[trigger] post[k],
                    ) by {
                        if k < len {
                            assert(post[k] == pre.post@[k]);
                        }
                    }
                    assert forall|a: int, k: int|
                        0 <= a < base && base <= k <= j implies !#[trigger] has_edge(
                        self.graph@,
                        post[a],
                        post[k],
                    ) by {
                        // what was left before this call had all its neighbours marked then
                        assert(post[a] == old(self).post@[a]) by {
                            assert(pre.post@.take(base)[a] == pre.post@[a]);
                        }
                        if k < len {
                            assert(post[k] == pre.post@[k]);
                        }
                        assert(!old(self).marked@[post[k] as int]);
                        if has_edge(self.graph@, post[a], post[k]) {
                            let x = post[a];
                            let e = choose|e: int|
                                0 <= e < self.graph@[x as int].len() && self.graph@[x as int][e]
                                    == post[k];
                            assert(old(self).marked@[old(self).graph@[old(
                                self).post@[a] as int][e] as int]);
                        }
                    }
                }
            }
            assert forall|k: int| base <= k < post.len() implies !old(self).marked@[(
            #[trigger] post[k]) as int] && reachable(g@, v, post[k]) by {
                if k < len {
                    assert(post[k] == pre.post@[k]);
                }
            }
        }
    }
}

/// `stack` is a walk of marked vertices, each entered from the one
/// before it, and holds exactly the vertices flagged in `on_stack`.
spec fn stack_facts(
    adj: Seq<Seq<usize>>,
    marked: Seq<bool>,
    on_stack: Seq<bool>,
    links: Seq<Option<usize>>,
    stack: Seq<usize>,
) -> bool {
    &&& forall|u: int| 0 <= u < adj.len()
        ==> (#[trigger] on_stack[u] <==> stack.contains(u as usize))
    &&& forall|k: int|
        0 <= k < stack.len() ==> (#[trigger] stack[k]) < adj.len() && marked[stack[k] as int]
    &&& stack.len() > 0 ==> is_path(adj, stack)
    &&& follows_links(links, stack)
    &&& stack.no_duplicates()
}

/// Every marked vertex that is not flagged in `on_stack` has a rank
/// below `left`, and each of its edges leads to another such vertex, of
/// lower rank.
spec fn ranked_facts(
    adj: Seq<Seq<usize>>,
    marked: Seq<bool>,
    on_stack: Seq<bool>,
    rank: Seq<nat>,
    left: nat,
) -> bool {
    &&& forall|u: int| 0 <= u < adj.len() && #[trigger] marked[u] && !on_stack[u] ==> rank[u] < left
    &&& forall|u: int, i: int|
        0 <= u < adj.len() && marked[u] && !on_stack[u] && 0 <= i < adj[u].len() ==> {
            let x = #[trigger] adj[u][i];
            marked[x as int] && !on_stack[x as int] && rank[x as int] < rank[u]
        }
}

/// Whether a graph has a directed cycle, and one such cycle if it has.
pub struct DirectedCycle {
    marked: Vec<bool>,
    on_stack: Vec<bool>,
    edge_to: Vec<Option<usize>>,
    cycle: LinkedStack<usize>,
    graph: Ghost<Seq<Seq<usize>>>,
    rank: Ghost<Seq<nat>>,
    left: Ghost<nat>,
}

impl DirectedCycle {
    /// The graph that was searched.
    pub closed spec fn graph(&self) -> Seq<Seq<usize>> {
        self.graph@
    }

    /// The cycle that was found, in the order in which `cycle` hands it
    /// out; empty if none was found.
    pub closed spec fn found(&self) -> Seq<usize> {
        self.cycle@
    }

    /// How far the search has come.
    spec fn state(&self) -> CycleSearch {
        CycleSearch {
            marked: self.marked@,
            on_stack: self.on_stack@,
            links: self.edge_to@,
            cycle: self.cycle@,
        }
    }

    /// There is a mark, a flag, a link and a rank for each vertex.
    spec fn sizes_ok(&self) -> bool {
        &&& wf_adj(self.graph@)
        &&& self.marked@.len() == self.graph@.len()
        &&& self.on_stack@.len() == self.graph@.len()
        &&& self.edge_to@.len() == self.graph@.len()
        &&& self.rank@.len() == self.graph@.len()
    }

    /// `stack` is the walk from the root of the search to the vertex it
    /// is at: these are the vertices flagged as on the stack, and each
    /// was entered from the one before it.
    spec fn stack_ok(&self, stack: Seq<usize>) -> bool {
        stack_facts(self.graph@, self.marked@, self.on_stack@, self.edge_to@, stack)
    }

    /// Every vertex that the search has left has a rank, and each of its
    /// edges leads to a vertex that was left before it, of lower rank.
    spec fn left_ranked(&self) -> bool {
        ranked_facts(self.graph@, self.marked@, self.on_stack@, self.rank@, self.left@)
    }

    /// What holds while the search is under way with `stack` as the walk
    /// to the vertex it is at: a cycle that was found is one, and as long
    /// as none was found the vertices that the search has left are ranked.
    spec fn inv(&self, stack: Seq<usize>) -> bool {
        &&& self.sizes_ok()
        &&& self.stack_ok(stack)
        &&& self.cycle@.len() > 0 ==> is_cycle(self.graph@, self.cycle@)
        &&& self.cycle@.no_duplicates()
        &&& self.cycle@.len() == 0 ==> self.left_ranked()
    }

    /// The search is complete: every vertex has been left, and either a
    /// cycle was found or the ranks show that there is none.
    pub closed spec fn wf(&self) -> bool {
        &&& self.inv(Seq::empty())
        &&& forall|u: int| 0 <= u < self.graph@.len() ==> self.marked@[u]
        &&& self.cycle@ == first_cycle(self.graph@)
    }

    /// Along a walk through vertices that were all left with no cycle
    /// found, the rank falls with every step.
    proof fn lemma_rank_falls(&self, p: Seq<usize>, k: int)
        requires
            self.wf(),
            self.cycle@.len() == 0,
            is_path(self.graph@, p),
            0 <= k < p.len(),
        ensures
            p[k] < self.graph@.len(),
            self.rank@[p[k] as int] + k <= self.rank@[p[0] as int],
        decreases k,
    {
        if k > 0 {
            self.lemma_rank_falls(p, k - 1);
            let u = p[k - 1];
            assert(step_ok(self.graph@, p, k - 1));
            let i = choose|i: int|
                0 <= i < self.graph@[u as int].len() && self.graph@[u as int][i] == p[k];
            assert(!self.on_stack@[u as int]) by {
                assert(!Seq::<usize>::empty().contains(u));
            }
            assert(self.rank@[self.graph@[u as int][i] as int] < self.rank@[u as int]);
        }
    }

    /// A cycle was found exactly when the graph has one.
    pub proof fn lemma_found_iff_cyclic(&self)
        requires
            self.wf(),
        ensures
            self.found() == first_cycle(self.graph()),
            self.found().len() > 0 <==> !is_dag(self.graph()),
            self.found().len() > 0 ==> is_cycle(self.graph(), self.found()),
            self.found().no_duplicates(),
    {
        if self.cycle@.len() == 0 {
            assert forall|c: Seq<usize>| !is_cycle(self.graph@, c) by {
                if is_cycle(self.graph@, c) {
                    let k = c.len() - 1;
                    self.lemma_rank_falls(c, k);
                    let u = c[k];
                    let i = choose|i: int|
                        0 <= i < self.graph@[u as int].len() && self.graph@[u as int][i] == c[0];
                    assert(!self.on_stack@[u as int]) by {
                        assert(!Seq::<usize>::empty().contains(u));
                    }
                    assert(self.rank@[self.graph@[u as int][i] as int] < self.rank@[u as int]);
                }
            }
        } else {
            assert(is_cycle(self.graph@, self.cycle@));
        }
    }

    /// Searches the graph depth first from every vertex not yet reached,
    /// in rising order, until an edge leads back to a vertex that the
    /// search is still below: that edge closes the cycle that is kept.
    pub fn new(g: &DGraph) -> (dc: Self)
        requires
            g.wf(),
        ensures
            dc.wf(),
            dc.graph() == g@,
            dc.found() == first_cycle(g@),
            dc.found().len() > 0 <==> !is_dag(g@),
            dc.found().len() > 0 ==> is_cycle(g@, dc.found()),
            dc.found().no_duplicates(),
    {
        let n = g.num_vertices;
        let mut marked: Vec<bool> = Vec::new();
        let mut on_stack: Vec<bool> = Vec::new();
        let mut edge_to: Vec<Option<usize>> = Vec::new();
        let mut k: usize = 0;
        while k < n
            invariant
                k <= n,
                marked@.len() == k,
                on_stack@.len() == k,
                edge_to@.len() == k,
                forall|u: int| 0 <= u < k ==> !marked@[u],
                forall|u: int| 0 <= u < k ==> !on_stack@[u],
                forall|u: int| 0 <= u < k ==> edge_to@[u] is None,
            decreases n - k,
        {
            marked.push(false);
            on_stack.push(false);
            edge_to.push(None);
            k += 1;
        }
        let mut dc = DirectedCycle {
            marked,
            on_stack,
            edge_to,
            cycle: LinkedStack::<usize>::new(),
            graph: Ghost(g@),
            rank: Ghost(Seq::new(n as nat, |u: int| 0nat)),
            left: Ghost(0),
        };
        proof {
            assert(dc.marked@ =~= unmarked(g@.len()));
            assert(dc.on_stack@ =~= unmarked(g@.len()));
            assert(dc.edge_to@ =~= no_links(g@.len()));
        }
        let ghost goal = cycle_all(g@, dc.state(), 0);
        let mut v: usize = 0;
        while v < n
            invariant
                g.wf(),
                n == g@.len(),
                v <= n,
                dc.graph@ == g@,
                dc.inv(Seq::empty()),
                forall|u: int| 0 <= u < v ==> dc.marked@[u],
                cycle_all(g@, dc.state(), v as int) == goal,
            decreases n - v,
        {
            if !dc.marked[v] {
                proof {
                    lemma_count_false_bound(dc.marked@);
                }
                dc.dfs(g, v, Ghost(Seq::empty()), Ghost(g@.len()));
            }
            v += 1;
        }
        proof {
            dc.lemma_found_iff_cyclic();
        }
        dc
    }

    /// Whether the graph has a directed cycle.
    pub fn has_cycle(&self) -> (b: bool)
        requires
            self.wf(),
        ensures
            b == !is_dag(self.graph()),
            b == (self.found().len() > 0),
    {
        proof {
            self.lemma_found_iff_cyclic();
        }
        !self.cycle.is_empty()
    }

    /// The cycle that was found, empty if the graph has none. From each
    /// vertex that comes out an edge leads to the next, and from the last
    /// to the first; a vertex with an edge to itself comes out alone.
    pub fn cycle(&self) -> (c: &LinkedStack<usize>)
        requires
            self.wf(),
        ensures
            c@ == self.found(),
            c@ == first_cycle(self.graph()),
            c@.len() > 0 <==> !is_dag(self.graph()),
            c@.len() > 0 ==> is_cycle(self.graph(), c@),
            c@.no_duplicates(),
    {
        proof {
            self.lemma_found_iff_cyclic();
        }
        &self.cycle
    }

    /// The stack that holds the cycle itself, to be changed in place.
    pub fn cycle_mut(&mut self) -> (c: &mut LinkedStack<usize>)
        ensures
            c@ == old(self).found(),
            final(self).found() == final(c)@,
            final(self).graph() == old(self).graph(),
    {
        &mut self.cycle
    }

    /// Keeps the cycle that the edge from `v`, the vertex the search is
    /// at, to `w` closes, where the search is still below `w`: the
    /// vertices on the way back from `v` to `w`, then `w`, then `v`.
    /// `inner` is the walk from the root of the search to `v`.
    fn close_cycle(&mut self, g: &DGraph, v: usize, w: usize, Ghost(inner): Ghost<Seq<usize>>)
        requires
            old(self).graph@ == g@,
            old(self).edge_to@.len() == g@.len(),
            old(self).cycle@.len() == 0,
            is_path(g@, inner),
            follows_links(old(self).edge_to@, inner),
            inner.no_duplicates(),
            inner.contains(w),
            inner.last() == v,
            inner.len() <= g@.len(),
            v < g@.len(),
            has_edge(g@, v, w),
        ensures
            final(self).graph@ == g@,
            final(self).marked == old(self).marked,
            final(self).on_stack == old(self).on_stack,
            final(self).edge_to == old(self).edge_to,
            final(self).rank == old(self).rank,
            final(self).left == old(self).left,
            final(self).cycle@ == closed_cycle(old(self).edge_to@, v, w),
            final(self).cycle@.len() > 0,
            is_cycle(g@, final(self).cycle@),
            final(self).cycle@.no_duplicates(),
    {
        if w == v {
            self.cycle.push(v);
            proof {
                assert(self.cycle@ =~= closed_cycle(self.edge_to@, v, w));
            }
        } else {
            let ghost top = inner.len() - 1;
            let ghost at = choose|k: int| 0 <= k < inner.len() && inner[k] == w;
            let ghost links = self.edge_to@;
            assert(link_ok(links, inner, top - 1));
            let mut x = self.edge_to[v].unwrap();
            let ghost mut idx: int = top - 1;
            assert(self.cycle@ =~= inner.subrange(idx + 1, top));
            while x != w
                invariant
                    self.graph == old(self).graph,
                    self.marked == old(self).marked,
                    self.on_stack == old(self).on_stack,
                    self.edge_to == old(self).edge_to,
                    self.rank == old(self).rank,
                    self.left == old(self).left,
                    links == self.edge_to@,
                    links.len() == g@.len(),
                    follows_links(links, inner),
                    top == inner.len() - 1,
                    0 <= at <= idx < top,
                    inner[at] == w,
                    x == inner[idx],
                    self.cycle@ == inner.subrange(idx + 1, top),
                decreases idx,
            {
                self.cycle.push(x);
                assert(link_ok(links, inner, idx - 1));
                x = self.edge_to[x].unwrap();
                proof {
                    assert(self.cycle@ =~= inner.subrange(idx, top));
                    idx = idx - 1;
                }
            }
            self.cycle.push(w);
            self.cycle.push(v);
            proof {
                assert(self.cycle@ =~= seq![v] + inner.subrange(idx, top));
                lemma_closed_cycle(g@, links, inner, idx, w);
            }
        }
    }

    /// Enters `v` and follows its edges, the one added last first, until a
    /// cycle is found: an edge to an unmarked vertex is followed by
    /// entering that vertex, and an edge to a vertex that the search is
    /// still below closes a cycle. On the way out `v` is taken off the
    /// stack again, whether a cycle was found or not. `stack` is the walk
    /// from the root of the search to the vertex it came from, and `fuel`
    /// bounds how deep the search that defines the result may go.
    fn dfs(&mut self, g: &DGraph, v: usize, Ghost(stack): Ghost<Seq<usize>>,
        Ghost(fuel): Ghost<nat>)
        requires
            fuel >= count_false(old(self).marked@),
            stack.len() + fuel <= g@.len(),
            g.wf(),
            old(self).graph@ == g@,
            old(self).inv(stack),
            v < g@.len(),
            !old(self).marked@[v as int],
            stack.len() > 0 ==> has_edge(g@, stack.last(), v) && old(self).edge_to@[v as int]
                == Some(stack.last()),
        ensures
            final(self).state() == cycle_visit(g@, old(self).state(), v, fuel),
            final(self).graph@ == g@,
            final(self).inv(stack),
            final(self).marked@[v as int],
            final(self).on_stack@ == old(self).on_stack@,
            forall|u: int|
                0 <= u < g@.len() && old(self).marked@[u] ==> #[trigger] final(self).marked@[u],
            count_false(final(self).marked@) < count_false(old(self).marked@),
            old(self).cycle@.len() > 0 ==> final(self).cycle@ == old(self).cycle@,
        decreases count_false(old(self).marked@),
    {
        let ghost inner = stack.push(v);
        proof {
            assert(!stack.contains(v)) by {
                if stack.contains(v) {
                    let k = choose|k: int| 0 <= k < stack.len() && stack[k] == v;
                    assert(old(self).marked@[stack[k] as int]);
                }
            }
            assert(!old(self).on_stack@[v as int]);
        }
        self.on_stack[v] = true;
        self.marked[v] = true;
        proof {
            lemma_count_false_mark(old(self).marked@, v as int);
            assert forall|u: int| 0 <= u < self.graph@.len() implies (#[trigger] self.on_stack@[u]
                <==> inner.contains(u as usize)) by {
                if u == v {
                    assert(inner[stack.len() as int] == v);
                } else {
                    if stack.contains(u as usize) {
                        let k = choose|k: int| 0 <= k < stack.len() && stack[k] == u as usize;
                        assert(inner[k] == u as usize);
                    }
                    if inner.contains(u as usize) {
                        let k = choose|k: int| 0 <= k < inner.len() && inner[k] == u as usize;
                        assert(stack[k] == u as usize);
                    }
                }
            }
            assert forall|k: int| 0 <= k < inner.len()
                implies (#[trigger] inner[k]) < self.graph@.len()
                && self.marked@[inner[k] as int] by {
                if k < stack.len() {
                    assert(inner[k] == stack[k]);
                }
            }
            if stack.len() > 0 {
                lemma_path_extend(g@, stack, v);
            } else {
                assert(inner =~= seq![v]);
            }
            assert forall|a: int, b: int|
                0 <= a < inner.len() && 0 <= b < inner.len() && a != b implies inner[a]
                != inner[b] by {
                if a < stack.len() && b < stack.len() {
                    assert(stack[a] != stack[b]);
                } else if a < stack.len() {
                    assert(stack.contains(stack[a]));
                } else {
                    assert(stack.contains(stack[b]));
                }
            }
            assert forall|i: int| 0 <= i < inner.len() - 1 implies #[trigger] link_ok(
                self.edge_to@,
                inner,
                i,
            ) by {
                if i < stack.len() - 1 {
                    assert(link_ok(old(self).edge_to@, stack, i));
                }
            }
            if self.cycle@.len() == 0 {
                assert(old(self).left_ranked());
                assert(self.left_ranked());
            }
        }
        let edges = g.scan_list(v, true);
        let mut it = edges.iter();
        let ghost mut i: int = 0;
        let ghost list = scan_order(g@[v as int], true);
        let ghost rest = (fuel - 1) as nat;
        let ghost goal = cycle_scan(g@, self.state(), v, 0, rest);
        loop
            invariant
                fuel >= count_false(old(self).marked@),
                stack.len() + fuel <= g@.len(),
                rest == fuel - 1,
                cycle_scan(g@, self.state(), v, i, rest) == goal,
                g.wf(),
                self.graph@ == g@,
                v < g@.len(),
                list == scan_order(g@[v as int], true),
                0 <= i <= list.len(),
                it@ == list.skip(i),
                inner == stack.push(v),
                !stack.contains(v),
                self.inv(inner),
                self.marked@[v as int],
                self.on_stack@ == old(self).on_stack@.update(v as int, true),
                !old(self).on_stack@[v as int],
                old(self).on_stack@.len() == g@.len(),
                self.cycle@.len() == 0 ==> forall|j: int|
                    0 <= j < i ==> self.marked@[(#[trigger] list[j]) as int]
                        && !self.on_stack@[list[j] as int],
                forall|u: int|
                    0 <= u < g@.len() && old(self).marked@[u] ==> #[trigger] self.marked@[u],
                count_false(self.marked@) < count_false(old(self).marked@),
                old(self).cycle@.len() > 0 ==> self.cycle@ == old(self).cycle@,
            ensures
                self.cycle@.len() == 0 ==> i == list.len(),
                self.state() == goal,
            decreases it@.len(),
        {
            if !self.cycle.is_empty() {
                break ;
            }
            match it.next() {
                None => {
                    break ;
                },
                Some(head) => {
                    let w = *head;
                    assert(w == list[i]);
                    assert(list.skip(i).skip(1) =~= list.skip(i + 1));
                    proof {
                        lemma_scan_order(g@[v as int], true, i);
                    }
                    assert(has_edge(g@, v, w));
                    if !self.marked[w] {
                        let ghost mid = *self;
                        self.edge_to[w] = Some(v);
                        proof {
                            assert forall|k: int| 0 <= k < inner.len() - 1
                                implies #[trigger] link_ok(
                                self.edge_to@,
                                inner,
                                k,
                            ) by {
                                assert(link_ok(mid.edge_to@, inner, k));
                                assert(mid.marked@[inner[k + 1] as int]);
                            }
                            assert(self.left_ranked());
                        }
                        let ghost pre = *self;
                        self.dfs(g, w, Ghost(inner), Ghost(rest));
                        proof {
                            assert forall|u: int|
                                0 <= u < g@.len() && old(self).marked@[u]
                                    implies #[trigger] self.marked@[u] by {
                                assert(pre.marked@[u]);
                            }
                            if self.cycle@.len() == 0 {
                                assert forall|j: int| 0 <= j < i + 1 implies self.marked@[(
                                #[trigger] list[j]) as int] && !self.on_stack@[list[j] as int] by {
                                    if j < i {
                                        assert(pre.marked@[list[j] as int]);
                                    } else {
                                        assert(!inner.contains(w)) by {
                                            if inner.contains(w) {
                                                let k = choose|k: int|
                                                    0 <= k < inner.len() && inner[k] == w;
                                                assert(pre.marked@[inner[k] as int]);
                                            }
                                        }
                                    }
                                }
                            }
                        }
                    } else if self.on_stack[w] {
                        proof {
                            assert(inner.contains(w));
                            assert(inner[inner.len() - 1] == v);
                        }
                        self.close_cycle(g, v, w, Ghost(inner));
                    }
                    proof {
                        i = i + 1;
                    }
                },
            }
        }
        let ghost pre = *self;
        self.on_stack[v] = false;
        proof {
            assert(self.on_stack@ =~= old(self).on_stack@);
            assert forall|u: int| 0 <= u < self.graph@.len() implies (#[trigger] self.on_stack@[u]
                <==> stack.contains(u as usize)) by {
                if u != v {
                    if stack.contains(u as usize) {
                        let k = choose|k: int| 0 <= k < stack.len() && stack[k] == u as usize;
                        assert(inner[k] == u as usize);
                    }
                    if inner.contains(u as usize) {
                        let k = choose|k: int| 0 <= k < inner.len() && inner[k] == u as usize;
                        assert(stack[k] == u as usize);
                    }
                }
            }
            assert forall|k: int| 0 <= k < stack.len()
                implies (#[trigger] stack[k]) < self.graph@.len()
                && self.marked@[stack[k] as int] by {
                assert(inner[k] == stack[k]);
            }
            if stack.len() > 0 {
                assert forall|k: int| 0 <= k < stack.len() - 1 implies #[trigger] step_ok(
                    g@,
                    stack,
                    k,
                ) by {
                    assert(step_ok(g@, inner, k));
                }
                assert(inner[0] == stack[0]);
            }
            assert forall|k: int| 0 <= k < stack.len() - 1 implies #[trigger] link_ok(
                self.edge_to@,
                stack,
                k,
            ) by {
                assert(link_ok(self.edge_to@, inner, k));
            }
            if self.cycle@.len() == 0 {
                self.rank = Ghost(self.rank@.update(v as int, self.left@));
                self.left = Ghost(self.left@ + 1);
                assert forall|u: int, e: int|
                    0 <= u < self.graph@.len() && self.marked@[u] && !self.on_stack@[u] && 0 <= e
                        < self.graph@[u].len() implies {
                    let x = #[trigger] self.graph@[u][e];
                    self.marked@[x as int] && !self.on_stack@[x as int] && self.rank@[x as int]
                        < self.rank@[u]
                } by {
                    let x = self.graph@[u][e];
                    if u == v {
                        let all = g@[v as int];
                        lemma_scan_order(all, true, e);
                        assert(pre.marked@[list[all.len() - 1 - e] as int]);
                    } else {
                        assert(pre.marked@[pre.graph@[u][e] as int] && !pre.on_stack@[x as int]);
                    }
                }
            }
        }
    }
}

/// The strongly connected components of a graph: a label for each
/// vertex, the same for two vertices exactly when they reach each other.
pub struct KosarajuSharirSCC {
    marked: Vec<bool>,
    id: Vec<Option<usize>>,
    pub count: usize,
    graph: Ghost<Seq<Seq<usize>>>,
}

impl KosarajuSharirSCC {
    /// The graph that was searched.
    pub closed spec fn graph(&self) -> Seq<Seq<usize>> {
        self.graph@
    }

    /// The label of each vertex.
    pub closed spec fn ids(&self) -> Seq<Option<usize>> {
        self.id@
    }

    /// The number of components: the value of the field `count`.
    pub closed spec fn components(&self) -> usize {
        self.count
    }

    /// The marked vertices are whole components, labelled `0..count`.
    spec fn labelled(&self) -> bool {
        components_labelled(self.graph@, self.marked@, self.id@, self.count)
    }

    /// The labelling is complete: every vertex has a label below `count`,
    /// every label below `count` is in use, and two vertices have the
    /// same label exactly when they reach each other.
    pub closed spec fn wf(&self) -> bool {
        &&& self.labelled()
        &&& forall|u: int| 0 <= u < self.graph@.len() ==> self.marked@[u]
        &&& self.id@ == strong_labels(self.graph@).0
        &&& self.count == strong_labels(self.graph@).1
    }

    /// What a complete labelling says, in terms of the labels alone.
    pub proof fn lemma_labels(&self)
        requires
            self.wf(),
        ensures
            self.ids() == strong_labels(self.graph()).0,
            self.components() == strong_labels(self.graph()).1,
            self.ids().len() == self.graph().len(),
            forall|u: int|
                0 <= u < self.graph().len() ==> (#[trigger] self.ids()[u]) is Some
                    && self.ids()[u]->0 < self.components(),
            forall|c: usize| c < self.components() ==> #[trigger] label_used(self.ids(), c),
            forall|u: usize, w: usize|
                u < self.graph().len() && w < self.graph().len() ==> (self.ids()[u as int]
                    == self.ids()[w as int] <==> #[trigger] mutually_reachable(self.graph(), u, w)),
    {
        assert forall|u: int| 0 <= u < self.graph@.len() implies (#[trigger] self.id@[u]) is Some
            && self.id@[u]->0 < self.count by {
            assert(self.marked@[u]);
        }
    }

    /// Labels the components in two passes: the vertices of the graph with
    /// its edges turned round are put in reverse postorder, and then, in
    /// that order, each vertex without a label starts a depth-first search
    /// of the graph that gives the next label to all it reaches without one.
    pub fn new(g: &DGraph) -> (cc: Self)
        requires
            g.wf(),
        ensures
            cc.wf(),
            cc.graph() == g@,
            cc.ids() == strong_labels(g@).0,
            cc.components() == strong_labels(g@).1,
    {
        let n = g.num_vertices;
        let mut marked: Vec<bool> = Vec::new();
        let mut id: Vec<Option<usize>> = Vec::new();
        let mut k: usize = 0;
        while k < n
            invariant
                k <= n,
                marked@.len() == k,
                id@.len() == k,
                forall|u: int| 0 <= u < k ==> !marked@[u],
                forall|u: int| 0 <= u < k ==> id@[u] is None,
            decreases n - k,
        {
            marked.push(false);
            id.push(None);
            k += 1;
        }
        let mut cc = KosarajuSharirSCC { marked, id, count: 0, graph: Ghost(g@) };
        let rev = g.reverse();
        let top_sort = TopologicalSort::new(&rev);
        let mut it = top_sort.reverse_post().iter();
        let ghost order = top_sort.order();
        let ghost mut i: int = 0;
        proof {
            lemma_count_false_bound(cc.marked@);
            top_sort.lemma_order();
            assert(edges_turned(g@, rev@));
            assert(cc.marked@ =~= unmarked(g@.len()));
            assert(cc.id@ =~= no_links(g@.len()));
        }
        let ghost goal = label_in_order(g@, cc.marked@, cc.id@, 0, order, 0);
        loop
            invariant
                label_in_order(g@, cc.marked@, cc.id@, cc.count as nat, order, i) == goal,
                order == reverse_postorder(rev@),
                rev@ == reversed(g@),
                g.wf(),
                n == g@.len(),
                cc.graph@ == g@,
                edges_turned(g@, rev@),
                top_sort.wf(),
                top_sort.graph@ == rev@,
                order == top_sort.reverse_post@,
                is_reverse_postorder(rev@, order),
                0 <= i <= order.len(),
                it@ == order.skip(i),
                cc.labelled(),
                forall|k: int| 0 <= k < i ==> cc.marked@[(#[trigger] order[k]) as int],
            ensures
                i == order.len(),
            decreases it@.len(),
        {
            match it.next() {
                None => {
                    break ;
                },
                Some(head) => {
                    let r = *head;
                    assert(r == order[i]);
                    assert(order.skip(i).skip(1) =~= order.skip(i + 1));
                    if !cc.marked[r] {
                        let ghost pre = cc;
                        proof {
                            lemma_reachable_refl(g@, r);
                            lemma_count_false_bound(cc.marked@);
                        }
                        cc.dfs(g, r);
                        proof {
                            assert forall|x: usize|
                                x < n && !pre.marked@[x as int] && cc.marked@[x as int]
                                    implies mutually_reachable(
                                g@,
                                r,
                                x,
                            ) by {
                                Self::lemma_root_reached_back(g@, &top_sort, pre.marked@, i, x);
                            }
                        }
                        cc.count = cc.count + 1;
                        proof {
                            lemma_component_labelled(
                                g@,
                                pre.marked@,
                                pre.id@,
                                pre.count,
                                cc.marked@,
                                cc.id@,
                                r,
                            );
                        }
                    }
                    proof {
                        i = i + 1;
                    }
                },
            }
        }
        proof {
            assert forall|u: int| 0 <= u < cc.graph@.len() implies cc.marked@[u] by {
                assert(order.contains(u as usize));
                let k = choose|k: int| 0 <= k < order.len() && order[k] == u as usize;
                assert(cc.marked@[order[k] as int]);
            }
        }
        cc
    }

    /// In the second pass, every vertex that the search from a new root
    /// `r` can still mark reaches `r` in turn.
    proof fn lemma_root_reached_back(
        adj: Seq<Seq<usize>>,
        ts: &TopologicalSort,
        marked: Seq<bool>,
        i: int,
        x: usize,
    )
        requires
            wf_adj(adj),
            ts.wf(),
            edges_turned(adj, ts.graph@),
            marked.len() == adj.len(),
            closed_under_edges(adj, marked),
            0 <= i < ts.reverse_post@.len(),
            forall|k: int| 0 <= k < i ==> marked[(#[trigger] ts.reverse_post@[k]) as int],
            !marked[ts.reverse_post@[i] as int],
            x < adj.len(),
            !marked[x as int],
            reachable(adj, ts.reverse_post@[i], x),
        ensures
            mutually_reachable(adj, ts.reverse_post@[i], x),
    {
        let order = ts.reverse_post@;
        let post = ts.post@;
        let n = adj.len() as int;
        let r = order[i];
        ts.lemma_order();
        lemma_count_false_none(ts.marked@);
        assert(post.len() == n);
        let j = n - 1 - i;
        assert(order[i] == post[j]);
        let p = choose|p: Seq<usize>| path_from_to(adj, p, r, x);
        assert forall|m: int| 0 <= m < p.len() implies (#[trigger] p[m]) < ts.graph@.len()
            && ts.pos@[p[m] as int] <= j by {
            lemma_path_vertex(adj, p, m);
            // a walk that enters the marked vertices stays among them
            if marked[p[m] as int] {
                lemma_suffix_marked(adj, marked, p, m, p.len() - 1);
            }
            let b = ts.pos@[p[m] as int];
            assert(ts.marked@[p[m] as int]);
            assert(post[b] == p[m]);
            if b > j {
                assert(order[n - 1 - b] == post[b]);
            }
        }
        assert forall|m: int| 0 <= m < p.len() - 1 implies #[trigger] step_ok(
            ts.graph@,
            p.reverse(),
            m,
        ) by {
            let k = p.len() - 2 - m;
            assert(step_ok(adj, p, k));
            assert(p.reverse()[m] == p[k + 1] && p.reverse()[m + 1] == p[k]);
        }
        ts.lemma_walk_in_segment(p, j, p.len() - 1);
        lemma_reverse_reachable(adj, ts.graph@, r, x);
    }

    /// The number of components.
    pub fn count(&self) -> (n: usize)
        ensures
            n == self.components(),
    {
        self.count
    }

    /// The label of the component of `v`.
    pub fn id(&self, v: usize) -> (c: Option<usize>)
        requires
            self.wf(),
            v < self.graph().len(),
        ensures
            c == self.ids()[v as int],
            c is Some,
            c->0 < self.components(),
    {
        proof {
            self.lemma_labels();
        }
        self.id[v]
    }

    /// Whether `v` and `w` are in the same component: whether each
    /// reaches the other.
    pub fn strongly_connected(&self, v: usize, w: usize) -> (b: bool)
        requires
            self.wf(),
            v < self.graph().len(),
            w < self.graph().len(),
        ensures
            b == mutually_reachable(self.graph(), v, w),
            b == (self.ids()[v as int] == self.ids()[w as int]),
    {
        proof {
            self.lemma_labels();
        }
        let a = self.id[v];
        let b = self.id[w];
        match (a, b) {
            (Some(x), Some(y)) => x == y,
            _ => false,
        }
    }

    /// Marks every vertex that `v` reaches through unmarked vertices and
    /// gives it the label `count`.
    fn dfs(&mut self, g: &DGraph, v: usize)
        requires
            g.wf(),
            old(self).graph@ == g@,
            old(self).marked@.len() == g@.len(),
            old(self).id@.len() == g@.len(),
            closed_under_edges(g@, old(self).marked@),
            v < g@.len(),
            !old(self).marked@[v as int],
        ensures
            (final(self).marked@, final(self).id@) == label_visit(
                g@,
                old(self).marked@,
                old(self).id@,
                old(self).count,
                v,
                g@.len(),
            ),
            final(self).graph@ == g@,
            final(self).count == old(self).count,
            labelled_from(
                g@,
                old(self).marked@,
                old(self).id@,
                final(self).marked@,
                final(self).id@,
                old(self).count,
                v,
            ),
    {
        proof {
            lemma_reachable_refl(g@, v);
            lemma_count_false_bound(self.marked@);
        }
        label_reached(
            g,
            &mut self.marked,
            &mut self.id,
            self.count,
            v,
            Ghost(Set::empty()),
            Ghost(v),
            Ghost(g@.len()),
        );
    }
}

} // verus!
