//! Depth-first and breadth-first searches for paths, over any graph kept as adjacency lists.

use crate::algorithms::graph_theory::{
    closed_except, closed_under_edges, count_false, follows_links, has_edge, is_path,
    lemma_closed_holds_reachable, lemma_count_false_bound, lemma_count_false_mark,
    lemma_links_prepend, lemma_path_prepend, lemma_ranks_rise_distinct, lemma_ranks_rise_prepend,
    lemma_reachable_refl, lemma_reachable_step, path_from_to, ranks_rise, reachable, step_ok,
    wf_adj, whole_walk,
};
use crate::algorithms::linked_list_queue::LinkedQueue;
use crate::algorithms::linked_list_stack::LinkedStack;
use crate::algorithms::search_order::{
    breadth_first_links, depth_first_links, label_scan, label_visit, lemma_scan_order, level_loop,
    level_scan, no_links, scan_order, tree_scan, tree_visit, unmarked,
};
use vstd::prelude::*;

verus! {

/// A graph over the vertices `0..n` that keeps, for each vertex, a list
/// of the vertices its edges lead to.
pub trait AdjacencyLists {
    /// For each vertex the vertices that its edges lead to, in the order
    /// in which the edges were added.
    spec fn adjacency(&self) -> Seq<Seq<usize>>;

    /// Whether an edge leads one way only.
    spec fn directed(&self) -> bool;

    /// Whether an edge leads one way only.
    fn is_directed(&self) -> (b: bool)
        ensures
            b == self.directed(),
    ;

    /// The number of vertices.
    fn vertex_count(&self) -> (n: usize)
        ensures
            n == self.adjacency().len(),
    ;

    /// The list of `v` for a search to walk through: in the order in
    /// which the edges were added, or, if `newest_first` holds, from the
    /// one added last to the one added first.
    fn scan_list(&self, v: usize, newest_first: bool) -> (list: LinkedStack<usize>)
        requires
            v < self.adjacency().len(),
        ensures
            list@ == scan_order(self.adjacency()[v as int], newest_first),
    ;
}

/// The items of `stack` in a new stack, the one at the bottom on top.
pub fn turned(stack: LinkedStack<usize>) -> (r: LinkedStack<usize>)
    ensures
        r@ == stack@.reverse(),
{
    let mut from = stack;
    let mut to: LinkedStack<usize> = LinkedStack::new();
    let ghost all = from@;
    loop
        invariant
            to@.reverse() + from@ == all,
        ensures
            from@.len() == 0,
        decreases from@.len(),
    {
        let ghost rest = from@;
        let ghost done = to@;
        match from.pop() {
            None => {
                break ;
            },
            Some(x) => {
                to.push(x);
                proof {
                    assert((seq![x] + done).reverse() =~= done.reverse().push(x));
                    assert(done.reverse().push(x) + rest.skip(1) =~= done.reverse() + rest);
                }
            },
        }
    }
    proof {
        assert(to@.reverse() + from@ =~= to@.reverse());
        assert(to@.reverse().reverse() =~= to@);
    }
    to
}

/// Which vertices a depth-first search from one origin reaches, with a
/// walk to each of them.
pub struct DFSPaths {
    marked: Vec<bool>,
    edge_to: Vec<Option<usize>>,
    origin: usize,
    ends_at_target: bool,
    graph: Ghost<Seq<Seq<usize>>>,
    depth: Ghost<Seq<nat>>,
}

impl DFSPaths {
    /// The graph that was searched.
    pub closed spec fn graph(&self) -> Seq<Seq<usize>> {
        self.graph@
    }

    /// The vertex the search started from.
    pub closed spec fn origin(&self) -> usize {
        self.origin
    }

    /// Whether the list that `path_to` hands out ends at the vertex
    /// asked for, as it does for a directed graph, or leaves it out, as
    /// it does for an undirected one.
    pub closed spec fn ends_at_target(&self) -> bool {
        self.ends_at_target
    }

    /// For each vertex the one it was first found from: nothing for the
    /// origin and for a vertex that was not reached.
    pub closed spec fn edge_to(&self) -> Seq<Option<usize>> {
        self.edge_to@
    }

    /// `v` has its link to a marked vertex with an edge to it, from which
    /// the way back to the origin is shorter.
    spec fn parent_ok(&self, v: int) -> bool {
        match self.edge_to@[v] {
            Some(p) => p < self.graph@.len() && self.marked@[p as int] && has_edge(
                self.graph@,
                p,
                v as usize,
            ) && self.depth@[p as int] < self.depth@[v],
            None => false,
        }
    }

    /// Every marked vertex is reached from the origin, and every marked
    /// vertex but the origin has its link.
    spec fn tree_inv(&self) -> bool {
        &&& wf_adj(self.graph@)
        &&& self.graph@.len() <= usize::MAX
        &&& self.marked@.len() == self.graph@.len()
        &&& self.edge_to@.len() == self.graph@.len()
        &&& self.depth@.len() == self.graph@.len()
        &&& self.origin < self.graph@.len()
        &&& self.edge_to@[self.origin as int] is None
        &&& forall|u: usize|
            u < self.graph@.len() && #[trigger] self.marked@[u as int] ==> reachable(
                self.graph@,
                self.origin,
                u,
            )
        &&& forall|u: int|
            0 <= u < self.graph@.len() && #[trigger] self.marked@[u] && u != self.origin
                ==> self.parent_ok(u)
    }

    /// Every marked vertex outside `open` has all its neighbours marked.
    spec fn closed_except(&self, open: Set<usize>) -> bool {
        forall|u: int, i: int|
            0 <= u < self.graph@.len() && self.marked@[u] && !open.contains(u as usize) && 0 <= i
                < self.graph@[u].len() ==> self.marked@[(#[trigger] self.graph@[u][i]) as int]
    }

    /// No unmarked vertex has a link, but for `pending`.
    spec fn unmarked_unset(&self, pending: int) -> bool {
        forall|u: int|
            0 <= u < self.graph@.len() && !self.marked@[u] && u != pending
                ==> #[trigger] self.edge_to@[u] is None
    }

    /// The search is complete: exactly the vertices that the origin
    /// reaches are marked, and each of them but the origin has the vertex
    /// it was found from.
    pub closed spec fn wf(&self) -> bool {
        &&& self.tree_inv()
        &&& self.marked@[self.origin as int]
        &&& closed_under_edges(self.graph@, self.marked@)
        &&& self.unmarked_unset(-1)
        &&& self.edge_to@ == depth_first_links(self.graph@, self.origin)
    }

    /// The links are those that the search finds when it follows the
    /// edges out of each vertex from the one added last to the one added first.
    pub proof fn lemma_links(&self)
        requires
            self.wf(),
        ensures
            self.edge_to() == depth_first_links(self.graph(), self.origin()),
    {
    }

    /// The origin is always reached.
    pub proof fn lemma_origin_reached(&self)
        requires
            self.wf(),
        ensures
            self.origin() < self.graph().len(),
            reachable(self.graph(), self.origin(), self.origin()),
    {
        lemma_reachable_refl(self.graph@, self.origin);
    }

    /// What the finished search recorded: each reached vertex but the
    /// origin has the tail of an edge into it, itself reached; the origin
    /// and the vertices that were not reached have nothing.
    pub proof fn lemma_edge_to(&self, v: usize)
        requires
            self.wf(),
            v < self.graph().len(),
        ensures
            self.edge_to().len() == self.graph().len(),
            self.edge_to()[v as int] is Some <==> v != self.origin() && reachable(
                self.graph(),
                self.origin(),
                v,
            ),
            self.edge_to()[v as int] is Some ==> has_edge(
                self.graph(),
                self.edge_to()[v as int]->0,
                v,
            ) && reachable(self.graph(), self.origin(), self.edge_to()[v as int]->0),
    {
        if reachable(self.graph@, self.origin, v) {
            lemma_closed_holds_reachable(self.graph@, self.marked@, self.origin, v);
        }
        if self.marked@[v as int] && v != self.origin {
            assert(self.parent_ok(v as int));
        }
    }

    /// Searches the graph depth first from `origin`, following the edges
    /// out of each vertex from the one added last to the one added first.
    pub fn new<G: AdjacencyLists>(g: &G, origin: usize) -> (paths: Self)
        requires
            wf_adj(g.adjacency()),
            origin < g.adjacency().len(),
        ensures
            paths.wf(),
            paths.graph() == g.adjacency(),
            paths.origin() == origin,
            paths.ends_at_target() == g.directed(),
            paths.edge_to() == depth_first_links(g.adjacency(), origin),
    {
        let n = g.vertex_count();
        let mut marked: Vec<bool> = Vec::new();
        let mut edge_to: Vec<Option<usize>> = Vec::new();
        let mut k: usize = 0;
        while k < n
            invariant
                k <= n,
                marked@.len() == k,
                edge_to@.len() == k,
                forall|u: int| 0 <= u < k ==> !marked@[u],
                forall|u: int| 0 <= u < k ==> edge_to@[u] is None,
            decreases n - k,
        {
            marked.push(false);
            edge_to.push(None);
            k += 1;
        }
        let ends_at_target = g.is_directed();
        let mut paths = DFSPaths {
            marked,
            edge_to,
            origin,
            ends_at_target,
            graph: Ghost(g.adjacency()),
            depth: Ghost(Seq::new(n as nat, |u: int| 0nat)),
        };
        proof {
            lemma_reachable_refl(g.adjacency(), origin);
            lemma_count_false_bound(paths.marked@);
            assert(paths.marked@ =~= unmarked(g.adjacency().len()));
            assert(paths.edge_to@ =~= no_links(g.adjacency().len()));
        }
        paths.dfs(g, origin, Ghost(Set::empty()), Ghost(g.adjacency().len()));
        paths
    }

    /// Whether a walk leads from the origin to `v`.
    pub fn has_path_to(&self, v: usize) -> (b: bool)
        requires
            self.wf(),
            v < self.graph().len(),
        ensures
            b == reachable(self.graph(), self.origin(), v),
    {
        proof {
            if reachable(self.graph@, self.origin, v) {
                lemma_closed_holds_reachable(self.graph@, self.marked@, self.origin, v);
            }
        }
        self.marked[v]
    }

    /// The walk from the origin to `v` that the search found: the origin
    /// comes out first. For a directed graph `v` comes out last, and the
    /// walk to the origin is the origin alone; for an undirected graph
    /// the list leaves `v` out, so that the vertex that `v` was found
    /// from comes out last.
    pub fn path_to(&self, v: usize) -> (r: Option<LinkedStack<usize>>)
        requires
            self.wf(),
            v < self.graph().len(),
        ensures
            r is Some <==> reachable(self.graph(), self.origin(), v),
            r is Some ==> path_from_to(
                self.graph(),
                whole_walk(r->0@, v, self.ends_at_target()),
                self.origin(),
                v,
            ),
            r is Some ==> follows_links(
                self.edge_to(),
                whole_walk(r->0@, v, self.ends_at_target()),
            ),
            r is Some ==> whole_walk(r->0@, v, self.ends_at_target()).no_duplicates(),
    {
        if self.has_path_to(v) {
            let mut path = LinkedStack::new();
            if self.ends_at_target {
                path.push(v);
            }
            let mut x = v;
            let ghost mut walk = seq![v];
            proof {
                lemma_closed_holds_reachable(self.graph@, self.marked@, self.origin, v);
                assert(whole_walk(path@, v, self.ends_at_target) =~= walk);
            }
            while x != self.origin
                invariant
                    self.wf(),
                    v < self.graph@.len(),
                    x < self.graph@.len(),
                    self.marked@[x as int],
                    walk == whole_walk(path@, v, self.ends_at_target),
                    is_path(self.graph@, walk),
                    walk[0] == x,
                    walk.last() == v,
                    follows_links(self.edge_to@, walk),
                    ranks_rise(self.depth@, walk),
                decreases self.depth@[x as int],
            {
                assert(self.parent_ok(x as int));
                let p = self.edge_to[x].unwrap();
                path.push(p);
                proof {
                    lemma_path_prepend(self.graph@, p, walk);
                    lemma_links_prepend(self.edge_to@, p, walk);
                    lemma_ranks_rise_prepend(self.depth@, p, walk);
                    assert(whole_walk(path@, v, self.ends_at_target) =~= seq![p] + walk);
                    walk = seq![p] + walk;
                }
                x = p;
            }
            proof {
                lemma_ranks_rise_distinct(self.depth@, walk);
            }
            Some(path)
        } else {
            None
        }
    }

    /// Marks `v` and follows its edges, the one added last first: each
    /// that leads to an unmarked vertex gives that vertex its link to
    /// `v` and is followed by a search that enters it. `open` holds the
    /// vertices whose edges are still being followed, and `fuel` bounds
    /// how deep the search that defines the result may go.
    fn dfs<G: AdjacencyLists>(
        &mut self,
        g: &G,
        v: usize,
        Ghost(open): Ghost<Set<usize>>,
        Ghost(fuel): Ghost<nat>,
    )
        requires
            fuel >= count_false(old(self).marked@),
            wf_adj(g.adjacency()),
            old(self).graph@ == g.adjacency(),
            old(self).tree_inv(),
            old(self).closed_except(open),
            old(self).unmarked_unset(v as int),
            v < g.adjacency().len(),
            !old(self).marked@[v as int],
            reachable(g.adjacency(), old(self).origin, v),
            v == old(self).origin || (old(self).marked@[old(self).origin as int] && old(
                self,
            ).parent_ok(v as int)),
        ensures
            (final(self).marked@, final(self).edge_to@) == tree_visit(
                g.adjacency(),
                old(self).marked@,
                old(self).edge_to@,
                v,
                fuel,
            ),
            final(self).graph@ == g.adjacency(),
            final(self).origin == old(self).origin,
            final(self).ends_at_target == old(self).ends_at_target,
            final(self).tree_inv(),
            final(self).closed_except(open),
            final(self).unmarked_unset(-1),
            final(self).marked@[v as int],
            forall|u: int|
                0 <= u < g.adjacency().len() && old(self).marked@[u]
                    ==> #[trigger] final(self).marked@[u],
            count_false(final(self).marked@) < count_false(old(self).marked@),
        decreases count_false(old(self).marked@),
    {
        self.marked[v] = true;
        proof {
            lemma_count_false_mark(old(self).marked@, v as int);
        }
        let edges = g.scan_list(v, true);
        let mut it = edges.iter();
        let ghost mut i: int = 0;
        let ghost list = scan_order(g.adjacency()[v as int], true);
        let ghost inner = open.insert(v);
        let ghost rest = (fuel - 1) as nat;
        let ghost goal = tree_scan(g.adjacency(), self.marked@, self.edge_to@, v, 0, rest);
        loop
            invariant
                fuel >= count_false(old(self).marked@),
                rest == fuel - 1,
                tree_scan(g.adjacency(), self.marked@, self.edge_to@, v, i, rest) == goal,
                wf_adj(g.adjacency()),
                self.graph@ == g.adjacency(),
                self.origin == old(self).origin,
                self.ends_at_target == old(self).ends_at_target,
                v < g.adjacency().len(),
                list == scan_order(g.adjacency()[v as int], true),
                0 <= i <= list.len(),
                it@ == list.skip(i),
                inner == open.insert(v),
                self.tree_inv(),
                self.closed_except(inner),
                self.unmarked_unset(-1),
                self.marked@[v as int],
                self.marked@[self.origin as int],
                forall|j: int| 0 <= j < i ==> self.marked@[(#[trigger] list[j]) as int],
                forall|u: int|
                    0 <= u < g.adjacency().len() && old(self).marked@[u]
                        ==> #[trigger] self.marked@[u],
                count_false(self.marked@) < count_false(old(self).marked@),
            ensures
                i == list.len(),
            decreases it@.len(),
        {
            match it.next() {
                None => {
                    break ;
                },
                Some(head) => {
                    let w = *head;
                    assert(w == list[i]);
                    assert(list.skip(i).skip(1) =~= list.skip(i + 1));
                    if !self.marked[w] {
                        let ghost mid = *self;
                        self.edge_to[w] = Some(v);
                        proof {
                            self.depth = Ghost(self.depth@.update(w as int,
                                self.depth@[v as int] + 1));
                            lemma_scan_order(g.adjacency()[v as int], true, i);
                            assert(has_edge(g.adjacency(), v, w));
                            lemma_reachable_step(g.adjacency(), self.origin, v, w);
                            assert forall|u: int|
                                0 <= u < self.graph@.len() && #[trigger] self.marked@[u] && u
                                    != self.origin implies self.parent_ok(u) by {
                                assert(mid.parent_ok(u));
                            }
                        }
                        let ghost pre = *self;
                        self.dfs(g, w, Ghost(inner), Ghost(rest));
                        proof {
                            assert forall|j: int| 0 <= j < i + 1 implies self.marked@[(
                            #[trigger] list[j]) as int] by {
                                if j < i {
                                    assert(pre.marked@[list[j] as int]);
                                }
                            }
                        }
                    }
                    proof {
                        i = i + 1;
                    }
                },
            }
        }
        proof {
            let all = g.adjacency()[v as int];
            assert forall|e: int| 0 <= e < all.len() implies self.marked@[(
            #[trigger] all[e]) as int] by {
                lemma_scan_order(all, true, e);
                assert(self.marked@[list[all.len() - 1 - e] as int]);
            }
        }
    }
}

/// Which vertices a breadth-first search from one origin reaches, with a
/// walk of the fewest edges to each of them.
pub struct BFSPaths {
    marked: Vec<bool>,
    edge_to: Vec<Option<usize>>,
    origin: usize,
    ends_at_target: bool,
    newest_first: bool,
    graph: Ghost<Seq<Seq<usize>>>,
    dist: Ghost<Seq<nat>>,
}

impl BFSPaths {
    /// The graph that was searched.
    pub closed spec fn graph(&self) -> Seq<Seq<usize>> {
        self.graph@
    }

    /// The vertex the search started from.
    pub closed spec fn origin(&self) -> usize {
        self.origin
    }

    /// Whether the list that `path_to` hands out ends at the vertex
    /// asked for, as it does for a directed graph, or leaves it out, as
    /// it does for an undirected one.
    pub closed spec fn ends_at_target(&self) -> bool {
        self.ends_at_target
    }

    /// For each vertex the one it was first found from: nothing for the
    /// origin and for a vertex that was not reached.
    pub closed spec fn edge_to(&self) -> Seq<Option<usize>> {
        self.edge_to@
    }

    /// `v` has its link to a marked vertex with an edge to it, from which
    /// the way back to the origin is shorter.
    spec fn parent_ok(&self, v: int) -> bool {
        match self.edge_to@[v] {
            Some(p) => p < self.graph@.len() && self.marked@[p as int] && has_edge(
                self.graph@,
                p,
                v as usize,
            ) && self.dist@[p as int] + 1 == self.dist@[v],
            None => false,
        }
    }

    /// Every marked vertex is reached from the origin, and every marked
    /// vertex but the origin has its link.
    spec fn tree_inv(&self) -> bool {
        &&& wf_adj(self.graph@)
        &&& self.graph@.len() <= usize::MAX
        &&& self.marked@.len() == self.graph@.len()
        &&& self.edge_to@.len() == self.graph@.len()
        &&& self.dist@.len() == self.graph@.len()
        &&& self.origin < self.graph@.len()
        &&& self.edge_to@[self.origin as int] is None
        &&& self.dist@[self.origin as int] == 0
        &&& forall|u: usize|
            u < self.graph@.len() && #[trigger] self.marked@[u as int] ==> reachable(
                self.graph@,
                self.origin,
                u,
            )
        &&& forall|u: int|
            0 <= u < self.graph@.len() && #[trigger] self.marked@[u] && u != self.origin
                ==> self.parent_ok(u)
    }

    /// No unmarked vertex has a link.
    spec fn unmarked_unset(&self) -> bool {
        forall|u: int|
            0 <= u < self.graph@.len() && !self.marked@[u] ==> #[trigger] self.edge_to@[u] is None
    }

    /// No edge between marked vertices leads more than one step further
    /// from the origin.
    spec fn relaxed(&self) -> bool {
        forall|u: int, i: int|
            0 <= u < self.graph@.len() && self.marked@[u] && 0 <= i < self.graph@[u].len()
                && self.marked@[(#[trigger] self.graph@[u][i]) as int]
                    ==> self.dist@[self.graph@[u][i] as int]
                <= self.dist@[u] + 1
    }

    /// Every marked vertex that is neither `busy` nor waiting in `queue`
    /// has all its neighbours marked.
    spec fn finished_except(&self, queue: Seq<usize>, busy: int) -> bool {
        forall|u: int, i: int|
            0 <= u < self.graph@.len() && self.marked@[u] && u != busy && !queue.contains(
                u as usize,
            ) && 0 <= i < self.graph@[u].len()
                ==> self.marked@[(#[trigger] self.graph@[u][i]) as int]
    }

    /// The vertices waiting in `queue` are marked, stand in the order of
    /// their distance from the origin, and no marked vertex lies more
    /// than one step beyond `low`, which none of them lies before.
    spec fn queue_inv(&self, queue: Seq<usize>, low: nat) -> bool {
        &&& forall|k: int|
            0 <= k < queue.len() ==> (#[trigger] queue[k]) < self.graph@.len()
                && self.marked@[queue[k] as int] && low <= self.dist@[queue[k] as int]
        &&& forall|a: int, b: int|
            0 <= a <= b < queue.len() ==> self.dist@[(#[trigger] queue[a]) as int]
                <= self.dist@[(#[trigger] queue[b]) as int]
        &&& forall|u: int|
            0 <= u < self.graph@.len() && #[trigger] self.marked@[u] ==> self.dist@[u] <= low + 1
    }

    /// The search is complete: exactly the vertices that the origin
    /// reaches are marked, each of them but the origin has the vertex it
    /// was found from, and that vertex lies one step nearer to the origin
    /// on a walk of the fewest edges.
    pub closed spec fn wf(&self) -> bool {
        &&& self.tree_inv()
        &&& self.marked@[self.origin as int]
        &&& closed_under_edges(self.graph@, self.marked@)
        &&& self.unmarked_unset()
        &&& self.relaxed()
        &&& self.edge_to@ == breadth_first_links(self.graph@, self.origin, self.newest_first)
    }

    /// The links are those that the search finds when it looks at the
    /// edges out of each vertex in the order that `newest_first` tells.
    pub proof fn lemma_links(&self)
        requires
            self.wf(),
        ensures
            self.edge_to() == breadth_first_links(
                self.graph(),
                self.origin(),
                self.newest_first(),
            ),
    {
    }

    /// Whether the search looks at the edges out of a vertex from the
    /// one added last to the one added first, or else in the order in
    /// which they were added.
    pub closed spec fn newest_first(&self) -> bool {
        self.newest_first
    }

    /// The origin is always reached.
    pub proof fn lemma_origin_reached(&self)
        requires
            self.wf(),
        ensures
            self.origin() < self.graph().len(),
            reachable(self.graph(), self.origin(), self.origin()),
    {
        lemma_reachable_refl(self.graph@, self.origin);
    }

    /// What the finished search recorded: each reached vertex but the
    /// origin has the tail of an edge into it, itself reached; the origin
    /// and the vertices that were not reached have nothing.
    pub proof fn lemma_edge_to(&self, v: usize)
        requires
            self.wf(),
            v < self.graph().len(),
        ensures
            self.edge_to().len() == self.graph().len(),
            self.edge_to()[v as int] is Some <==> v != self.origin() && reachable(
                self.graph(),
                self.origin(),
                v,
            ),
            self.edge_to()[v as int] is Some ==> has_edge(
                self.graph(),
                self.edge_to()[v as int]->0,
                v,
            ) && reachable(self.graph(), self.origin(), self.edge_to()[v as int]->0),
    {
        if reachable(self.graph@, self.origin, v) {
            lemma_closed_holds_reachable(self.graph@, self.marked@, self.origin, v);
        }
        if self.marked@[v as int] && v != self.origin {
            assert(self.parent_ok(v as int));
        }
    }

    /// Searches the graph breadth first from `origin`: a vertex is marked,
    /// and given the vertex it was found from, when it enters the queue.
    /// In a directed graph the edges out of a vertex are looked at in the
    /// order in which they were added, so that among the walks of the
    /// fewest edges the one by the edges added first is found; in an
    /// undirected graph they are looked at from the one added last.
    pub fn new<G: AdjacencyLists>(g: &G, origin: usize) -> (paths: Self)
        requires
            wf_adj(g.adjacency()),
            origin < g.adjacency().len(),
        ensures
            paths.wf(),
            paths.graph() == g.adjacency(),
            paths.origin() == origin,
            paths.ends_at_target() == g.directed(),
            paths.newest_first() == !g.directed(),
            paths.edge_to() == breadth_first_links(g.adjacency(), origin, !g.directed()),
    {
        let n = g.vertex_count();
        let mut marked: Vec<bool> = Vec::new();
        let mut edge_to: Vec<Option<usize>> = Vec::new();
        let mut k: usize = 0;
        while k < n
            invariant
                k <= n,
                marked@.len() == k,
                edge_to@.len() == k,
                forall|u: int| 0 <= u < k ==> !marked@[u],
                forall|u: int| 0 <= u < k ==> edge_to@[u] is None,
            decreases n - k,
        {
            marked.push(false);
            edge_to.push(None);
            k += 1;
        }
        let newest_first = !g.is_directed();
        let ends_at_target = g.is_directed();
        let mut paths = BFSPaths {
            marked,
            edge_to,
            origin,
            ends_at_target,
            newest_first,
            graph: Ghost(g.adjacency()),
            dist: Ghost(Seq::new(n as nat, |u: int| 0nat)),
        };
        paths.bfs(g, origin);
        paths
    }

    /// Whether a walk leads from the origin to `v`.
    pub fn has_path_to(&self, v: usize) -> (b: bool)
        requires
            self.wf(),
            v < self.graph().len(),
        ensures
            b == reachable(self.graph(), self.origin(), v),
    {
        proof {
            if reachable(self.graph@, self.origin, v) {
                lemma_closed_holds_reachable(self.graph@, self.marked@, self.origin, v);
            }
        }
        self.marked[v]
    }

    /// Along any walk from the origin, the vertex at place `k` is marked
    /// and lies at most `k` steps from the origin.
    proof fn lemma_dist_lower(&self, q: Seq<usize>, k: int)
        requires
            self.wf(),
            is_path(self.graph@, q),
            q[0] == self.origin,
            0 <= k < q.len(),
        ensures
            q[k] < self.graph@.len(),
            self.marked@[q[k] as int],
            self.dist@[q[k] as int] <= k,
        decreases k,
    {
        if k > 0 {
            self.lemma_dist_lower(q, k - 1);
            let u = q[k - 1];
            assert(step_ok(self.graph@, q, k - 1));
            let i = choose|i: int|
                0 <= i < self.graph@[u as int].len() && self.graph@[u as int][i] == q[k];
            assert(self.marked@[self.graph@[u as int][i] as int]);
        }
    }

    /// The walk from the origin to `v` that the search found: the origin
    /// comes out first. For a directed graph `v` comes out last, and the
    /// walk to the origin is the origin alone; for an undirected graph
    /// the list leaves `v` out, so that the vertex that `v` was found
    /// from comes out last. No walk from the
    /// origin to `v` has fewer edges.
    pub fn path_to(&self, v: usize) -> (r: Option<LinkedStack<usize>>)
        requires
            self.wf(),
            v < self.graph().len(),
        ensures
            r is Some <==> reachable(self.graph(), self.origin(), v),
            r is Some ==> path_from_to(
                self.graph(),
                whole_walk(r->0@, v, self.ends_at_target()),
                self.origin(),
                v,
            ),
            r is Some ==> follows_links(
                self.edge_to(),
                whole_walk(r->0@, v, self.ends_at_target()),
            ),
            r is Some ==> whole_walk(r->0@, v, self.ends_at_target()).no_duplicates(),
            r is Some ==> forall|q: Seq<usize>| #[trigger]
                path_from_to(self.graph(), q, self.origin(), v) ==> whole_walk(
                    r->0@,
                    v,
                    self.ends_at_target(),
                ).len() <= q.len(),
    {
        if self.has_path_to(v) {
            let mut path = LinkedStack::new();
            if self.ends_at_target {
                path.push(v);
            }
            let mut x = v;
            let ghost mut walk = seq![v];
            proof {
                lemma_closed_holds_reachable(self.graph@, self.marked@, self.origin, v);
                assert(whole_walk(path@, v, self.ends_at_target) =~= walk);
            }
            while x != self.origin
                invariant
                    self.wf(),
                    v < self.graph@.len(),
                    x < self.graph@.len(),
                    self.marked@[x as int],
                    walk == whole_walk(path@, v, self.ends_at_target),
                    is_path(self.graph@, walk),
                    walk[0] == x,
                    walk.last() == v,
                    follows_links(self.edge_to@, walk),
                    ranks_rise(self.dist@, walk),
                    walk.len() + self.dist@[x as int] == self.dist@[v as int] + 1,
                decreases self.dist@[x as int],
            {
                assert(self.parent_ok(x as int));
                let p = self.edge_to[x].unwrap();
                path.push(p);
                proof {
                    lemma_path_prepend(self.graph@, p, walk);
                    lemma_links_prepend(self.edge_to@, p, walk);
                    lemma_ranks_rise_prepend(self.dist@, p, walk);
                    assert(whole_walk(path@, v, self.ends_at_target) =~= seq![p] + walk);
                    walk = seq![p] + walk;
                }
                x = p;
            }
            proof {
                lemma_ranks_rise_distinct(self.dist@, walk);
                assert forall|q: Seq<usize>| #[trigger]
                    path_from_to(self.graph@, q, self.origin, v) implies walk.len() <= q.len() by {
                    self.lemma_dist_lower(q, q.len() - 1);
                }
            }
            Some(path)
        } else {
            None
        }
    }

    /// Marking an unmarked neighbour `w` of the busy vertex `v`, one step
    /// further from the origin, and putting it at the back of the queue
    /// keeps everything that the search relies on.
    proof fn lemma_mark_step(pre: &Self, now: &Self, queue: Seq<usize>, v: usize, w: usize)
        requires
            pre.tree_inv(),
            pre.marked@[pre.origin as int],
            pre.unmarked_unset(),
            pre.relaxed(),
            v < pre.graph@.len(),
            w < pre.graph@.len(),
            pre.marked@[v as int],
            !pre.marked@[w as int],
            has_edge(pre.graph@, v, w),
            pre.finished_except(queue, v as int),
            pre.queue_inv(queue, pre.dist@[v as int]),
            now.graph@ == pre.graph@,
            now.origin == pre.origin,
            now.marked@ == pre.marked@.update(w as int, true),
            now.edge_to@ == pre.edge_to@.update(w as int, Some(v)),
            now.dist@ == pre.dist@.update(w as int, pre.dist@[v as int] + 1),
        ensures
            now.tree_inv(),
            now.unmarked_unset(),
            now.relaxed(),
            now.finished_except(queue.push(w), v as int),
            now.queue_inv(queue.push(w), pre.dist@[v as int]),
    {
        let adj = pre.graph@;
        let cur = pre.dist@[v as int];
        let q2 = queue.push(w);
        lemma_reachable_step(adj, pre.origin, v, w);
        assert forall|u: usize| u < adj.len() && #[trigger] now.marked@[u as int] implies reachable(
            adj,
            now.origin,
            u,
        ) by {
            if u != w {
                assert(pre.marked@[u as int]);
            }
        }
        assert forall|u: int|
            0 <= u < adj.len() && #[trigger] now.marked@[u] && u != now.origin
                implies now.parent_ok(
            u,
        ) by {
            if u != w {
                assert(pre.marked@[u]);
                assert(pre.parent_ok(u));
            }
        }
        assert forall|u: int| 0 <= u < adj.len() && !now.marked@[u]
            implies #[trigger] now.edge_to@[u] is None by {
            assert(pre.edge_to@[u] is None);
        }
        assert forall|k: int| 0 <= k < q2.len() implies (#[trigger] q2[k]) < adj.len()
            && now.marked@[q2[k] as int] && cur <= now.dist@[q2[k] as int] by {
            if k < queue.len() {
                assert(q2[k] == queue[k]);
            }
        }
        assert forall|a: int, b: int| 0 <= a <= b < q2.len()
            implies now.dist@[(#[trigger] q2[a]) as int]
            <= now.dist@[(#[trigger] q2[b]) as int] by {
            if a < queue.len() {
                assert(q2[a] == queue[a]);
            }
            if b < queue.len() {
                assert(q2[b] == queue[b]);
            }
        }
        assert forall|u: int| 0 <= u < adj.len() && #[trigger] now.marked@[u] implies now.dist@[u]
            <= cur + 1 by {
            if u != w {
                assert(pre.marked@[u]);
            }
        }
        assert forall|u: int, j: int|
            0 <= u < adj.len() && now.marked@[u] && u != v && !q2.contains(u as usize) && 0 <= j
                < adj[u].len() implies now.marked@[(#[trigger] adj[u][j]) as int] by {
            if u == w {
                assert(q2[queue.len() as int] == w);
            } else {
                if queue.contains(u as usize) {
                    let k = choose|k: int| 0 <= k < queue.len() && queue[k] == u as usize;
                    assert(q2[k] == queue[k]);
                }
                assert(pre.marked@[pre.graph@[u][j] as int]);
            }
        }
        assert forall|u: int, j: int|
            0 <= u < adj.len() && now.marked@[u] && 0 <= j < adj[u].len() && now.marked@[(
            #[trigger] adj[u][j]) as int] implies now.dist@[adj[u][j] as int] <= now.dist@[u]
            + 1 by {
            let x = adj[u][j];
            if u == w {
                if x != w {
                    assert(pre.marked@[x as int]);
                }
            } else if x == w {
                // an edge into the new vertex leaves the busy vertex or one that waits
                assert(pre.marked@[u]);
                if u != v {
                    if !queue.contains(u as usize) {
                        assert(pre.marked@[pre.graph@[u][j] as int]);
                    }
                    let k = choose|k: int| 0 <= k < queue.len() && queue[k] == u as usize;
                    assert(cur <= pre.dist@[queue[k] as int]);
                }
            } else {
                assert(pre.marked@[u]);
                assert(pre.marked@[pre.graph@[u][j] as int]);
            }
        }
    }

    /// Puts `v`, the origin, into a queue, and then, as long as the queue
    /// holds a vertex, takes the one at its front and looks at its edges
    /// in the order that `newest_first` tells: each that leads to an unmarked vertex
    /// marks that vertex, gives it its link and puts it into the queue.
    fn bfs<G: AdjacencyLists>(&mut self, g: &G, v: usize)
        requires
            wf_adj(g.adjacency()),
            old(self).graph@ == g.adjacency(),
            v == old(self).origin,
            v < g.adjacency().len(),
            g.adjacency().len() <= usize::MAX,
            old(self).marked@.len() == g.adjacency().len(),
            old(self).edge_to@.len() == g.adjacency().len(),
            old(self).dist@ == Seq::new(g.adjacency().len(), |u: int| 0nat),
            forall|u: int| 0 <= u < g.adjacency().len() ==> !old(self).marked@[u],
            forall|u: int| 0 <= u < g.adjacency().len() ==> old(self).edge_to@[u] is None,
        ensures
            final(self).wf(),
            final(self).graph@ == g.adjacency(),
            final(self).origin == old(self).origin,
            final(self).ends_at_target == old(self).ends_at_target,
            final(self).newest_first == old(self).newest_first,
            final(self).edge_to@ == breadth_first_links(
                g.adjacency(),
                v,
                old(self).newest_first,
            ),
    {
        let mut q: LinkedQueue<usize> = LinkedQueue::new();
        q.enqueue(self.origin);
        self.marked[v] = true;
        let ghost mut fuel: nat = g.adjacency().len();
        let nf = self.newest_first;
        let ghost goal = level_loop(
            g.adjacency(),
            self.marked@,
            self.edge_to@,
            seq![v],
            fuel,
            nf,
        );
        proof {
            assert(old(self).marked@ =~= unmarked(g.adjacency().len()));
            assert(self.edge_to@ =~= no_links(g.adjacency().len()));
            lemma_count_false_mark(old(self).marked@, v as int);
            lemma_count_false_bound(old(self).marked@);
            lemma_reachable_refl(g.adjacency(), v);
            assert(q@ =~= seq![v]);
            assert(q@[0] == v);
            assert forall|u: int, i: int|
                0 <= u < self.graph@.len() && self.marked@[u] && u != -1 && !q@.contains(u as usize)
                    && 0 <= i < self.graph@[u].len() implies self.marked@[(
            #[trigger] self.graph@[u][i]) as int] by {
                assert(q@[0] == u as usize);
            }
        }
        while !q.is_empty()
            invariant
                wf_adj(g.adjacency()),
                self.graph@ == g.adjacency(),
                self.origin == old(self).origin,
                self.ends_at_target == old(self).ends_at_target,
                self.tree_inv(),
                self.marked@[self.origin as int],
                self.unmarked_unset(),
                self.relaxed(),
                self.finished_except(q@, -1),
                q@.len() > 0 ==> self.queue_inv(q@, self.dist@[q@[0] as int]),
                fuel >= count_false(self.marked@) + q@.len(),
                nf == self.newest_first,
                nf == old(self).newest_first,
                level_loop(g.adjacency(), self.marked@, self.edge_to@, q@, fuel, nf) == goal,
            decreases count_false(self.marked@) + q@.len(),
        {
            let ghost queue0 = q@;
            let ghost measure = count_false(self.marked@) + q@.len();
            let v = q.dequeue().unwrap();
            let ghost scan_first = q@;
            let ghost scan_goal = level_scan(
                g.adjacency(),
                self.marked@,
                self.edge_to@,
                q@,
                v,
                0,
                nf,
            );
            let ghost cur = self.dist@[v as int];
            let edges = g.scan_list(v, nf);
            let mut it = edges.iter();
            let ghost mut i: int = 0;
            let ghost list = scan_order(g.adjacency()[v as int], nf);
            proof {
                assert(queue0[0] == v);
                assert forall|k: int| 0 <= k < q@.len()
                    implies (#[trigger] q@[k]) < self.graph@.len()
                    && self.marked@[q@[k] as int] && cur <= self.dist@[q@[k] as int] by {
                    assert(q@[k] == queue0[k + 1]);
                }
                assert forall|a: int, b: int| 0 <= a <= b < q@.len() implies self.dist@[(
                #[trigger] q@[a]) as int] <= self.dist@[(#[trigger] q@[b]) as int] by {
                    assert(q@[a] == queue0[a + 1]);
                    assert(q@[b] == queue0[b + 1]);
                }
                assert forall|u: int, j: int|
                    0 <= u < self.graph@.len() && self.marked@[u] && u != v && !q@.contains(
                        u as usize,
                    ) && 0 <= j < self.graph@[u].len() implies self.marked@[(
                #[trigger] self.graph@[u][j]) as int] by {
                    if queue0.contains(u as usize) {
                        let k = choose|k: int| 0 <= k < queue0.len() && queue0[k] == u as usize;
                        assert(q@[k - 1] == queue0[k]);
                    }
                }
            }
            loop
                invariant
                    wf_adj(g.adjacency()),
                    self.graph@ == g.adjacency(),
                    self.origin == old(self).origin,
                    self.ends_at_target == old(self).ends_at_target,
                self.ends_at_target == old(self).ends_at_target,
                    v < g.adjacency().len(),
                    list == scan_order(g.adjacency()[v as int], nf),
                    0 <= i <= list.len(),
                    it@ == list.skip(i),
                    self.tree_inv(),
                    self.marked@[self.origin as int],
                    self.marked@[v as int],
                    cur == self.dist@[v as int],
                    self.unmarked_unset(),
                    self.relaxed(),
                    self.finished_except(q@, v as int),
                    self.queue_inv(q@, cur),
                    forall|j: int| 0 <= j < i ==> self.marked@[(#[trigger] list[j]) as int],
                    count_false(self.marked@) + q@.len() + 1 == measure,
                    nf == self.newest_first,
                    level_scan(g.adjacency(), self.marked@, self.edge_to@, q@, v, i, nf)
                        == scan_goal,
                ensures
                    i == list.len(),
                decreases it@.len(),
            {
                match it.next() {
                    None => {
                        break ;
                    },
                    Some(head) => {
                        let w = *head;
                        assert(w == list[i]);
                        assert(list.skip(i).skip(1) =~= list.skip(i + 1));
                        if !self.marked[w] {
                            let ghost pre = *self;
                            let ghost queue1 = q@;
                            q.enqueue(w);
                            self.marked[w] = true;
                            self.edge_to[w] = Some(v);
                            proof {
                                self.dist = Ghost(self.dist@.update(w as int, cur + 1));
                                lemma_scan_order(g.adjacency()[v as int], nf, i);
                                assert(has_edge(g.adjacency(), v, w));
                                lemma_count_false_mark(pre.marked@, w as int);
                                Self::lemma_mark_step(&pre, self, queue1, v, w);
                                assert forall|j: int| 0 <= j < i + 1 implies self.marked@[(
                                #[trigger] list[j]) as int] by {
                                    if j < i {
                                        assert(pre.marked@[list[j] as int]);
                                    }
                                }
                            }
                        }
                        proof {
                            i = i + 1;
                        }
                    },
                }
            }
            proof {
                assert forall|u: int, j: int|
                    0 <= u < self.graph@.len() && self.marked@[u] && u != -1 && !q@.contains(
                        u as usize,
                    ) && 0 <= j < self.graph@[u].len() implies self.marked@[(
                #[trigger] self.graph@[u][j]) as int] by {
                    if u == v {
                        let all = g.adjacency()[v as int];
                        lemma_scan_order(all, nf, j);
                        let at = if nf {
                            all.len() - 1 - j
                        } else {
                            j
                        };
                        assert(self.marked@[list[at] as int]);
                    }
                }
                if q@.len() > 0 {
                    let low = self.dist@[q@[0] as int];
                    assert(cur <= low);
                    assert(self.queue_inv(q@, low));
                }
                assert(queue0.skip(1) =~= scan_first);
                fuel = (fuel - 1) as nat;
            }
        }
        proof {
            assert forall|u: int, i: int|
                0 <= u < self.graph@.len() && self.marked@[u] && 0 <= i
                    < self.graph@[u].len()
                        implies self.marked@[(#[trigger] self.graph@[u][i]) as int] by {
                assert(!q@.contains(u as usize));
            }
        }
    }
}

/// Marks every vertex that `v` reaches through unmarked vertices and
/// gives each of them `label`. `open` holds the vertices whose
/// neighbours are still being visited, and `root` the vertex that the
/// whole search started from.
pub(crate) fn label_reached<G: AdjacencyLists>(
    g: &G,
    marked: &mut Vec<bool>,
    id: &mut Vec<Option<usize>>,
    label: usize,
    v: usize,
    Ghost(open): Ghost<Set<usize>>,
    Ghost(root): Ghost<usize>,
    Ghost(fuel): Ghost<nat>,
)
    requires
        fuel >= count_false(old(marked)@),
        wf_adj(g.adjacency()),
        g.adjacency().len() <= usize::MAX,
        old(marked)@.len() == g.adjacency().len(),
        old(id)@.len() == g.adjacency().len(),
        closed_except(g.adjacency(), old(marked)@, open),
        v < g.adjacency().len(),
        !old(marked)@[v as int],
        reachable(g.adjacency(), root, v),
    ensures
        (final(marked)@, final(id)@) == label_visit(
            g.adjacency(),
            old(marked)@,
            old(id)@,
            label,
            v,
            fuel,
        ),
        final(marked)@.len() == g.adjacency().len(),
        final(id)@.len() == g.adjacency().len(),
        closed_except(g.adjacency(), final(marked)@, open),
        final(marked)@[v as int],
        count_false(final(marked)@) < count_false(old(marked)@),
        forall|u: int|
            0 <= u < g.adjacency().len() && old(marked)@[u] ==> #[trigger] final(marked)@[u],
        forall|u: int|
            0 <= u < g.adjacency().len() && old(marked)@[u] ==> #[trigger] final(id)@[u] == old(
                id,
            )@[u],
        forall|u: int|
            0 <= u < g.adjacency().len() && !old(marked)@[u] && #[trigger] final(marked)@[u]
                ==> final(id)@[u] == Some(label) && reachable(g.adjacency(), root, u as usize),
        forall|u: int|
            0 <= u < g.adjacency().len() && !#[trigger] final(marked)@[u] ==> final(id)@[u] == old(
                id,
            )@[u],
    decreases count_false(old(marked)@),
{
    let ghost adj = g.adjacency();
    let ghost marked0 = marked@;
    let ghost id0 = id@;
    marked[v] = true;
    id[v] = Some(label);
    proof {
        lemma_count_false_mark(marked0, v as int);
    }
    let edges = g.scan_list(v, true);
    let mut it = edges.iter();
    let ghost mut i: int = 0;
    let ghost list = scan_order(adj[v as int], true);
    let ghost inner = open.insert(v);
    let ghost rest = (fuel - 1) as nat;
    let ghost goal = label_scan(adj, marked@, id@, label, v, 0, rest);
    loop
        invariant
            fuel >= count_false(marked0),
            rest == fuel - 1,
            label_scan(adj, marked@, id@, label, v, i, rest) == goal,
            adj == g.adjacency(),
            wf_adj(adj),
            adj.len() <= usize::MAX,
            marked0 == old(marked)@,
            id0 == old(id)@,
            v < adj.len(),
            list == scan_order(adj[v as int], true),
            0 <= i <= list.len(),
            it@ == list.skip(i),
            inner == open.insert(v),
            reachable(adj, root, v),
            marked0.len() == adj.len(),
            id0.len() == adj.len(),
            marked@.len() == adj.len(),
            id@.len() == adj.len(),
            closed_except(adj, marked@, inner),
            marked@[v as int],
            forall|j: int| 0 <= j < i ==> marked@[(#[trigger] list[j]) as int],
            count_false(marked@) < count_false(marked0),
            forall|u: int| 0 <= u < adj.len() && marked0[u] ==> #[trigger] marked@[u],
            forall|u: int| 0 <= u < adj.len() && marked0[u] ==> #[trigger] id@[u] == id0[u],
            forall|u: int|
                0 <= u < adj.len() && !marked0[u] && #[trigger] marked@[u] ==> id@[u] == Some(label)
                    && reachable(adj, root, u as usize),
            forall|u: int| 0 <= u < adj.len() && !#[trigger] marked@[u] ==> id@[u] == id0[u],
        ensures
            i == list.len(),
        decreases it@.len(),
    {
        match it.next() {
            None => {
                break ;
            },
            Some(head) => {
                let w = *head;
                assert(w == list[i]);
                assert(list.skip(i).skip(1) =~= list.skip(i + 1));
                if !marked[w] {
                    let ghost marked1 = marked@;
                    let ghost id1 = id@;
                    proof {
                        lemma_scan_order(adj[v as int], true, i);
                        assert(has_edge(adj, v, w));
                        lemma_reachable_step(adj, root, v, w);
                    }
                    label_reached(g, marked, id, label, w, Ghost(inner), Ghost(root), Ghost(rest));
                    proof {
                        assert forall|j: int| 0 <= j < i + 1
                            implies marked@[(#[trigger] list[j]) as int] by {
                            if j < i {
                                assert(marked1[list[j] as int]);
                            }
                        }
                        assert forall|u: int| 0 <= u < adj.len() && marked0[u]
                            implies #[trigger] marked@[u] by {
                            assert(marked1[u]);
                        }
                        assert forall|u: int| 0 <= u < adj.len() && marked0[u]
                            implies #[trigger] id@[u]
                            == id0[u] by {
                            assert(marked1[u]);
                            assert(id1[u] == id0[u]);
                        }
                        assert forall|u: int|
                            0 <= u < adj.len() && !marked0[u] && #[trigger] marked@[u]
                                implies id@[u]
                            == Some(label) && reachable(adj, root, u as usize) by {
                            if marked1[u] {
                                assert(id@[u] == id1[u]);
                            }
                        }
                        assert forall|u: int| 0 <= u < adj.len()
                            && !#[trigger] marked@[u] implies id@[u]
                            == id0[u] by {
                            assert(!marked1[u]);
                            assert(id1[u] == id0[u]);
                        }
                    }
                }
                proof {
                    i = i + 1;
                }
            },
        }
    }
    proof {
        let all = adj[v as int];
        assert forall|e: int| 0 <= e < all.len() implies marked@[(#[trigger] all[e]) as int] by {
            lemma_scan_order(all, true, e);
            assert(marked@[list[all.len() - 1 - e] as int]);
        }
    }
}

} // verus!
