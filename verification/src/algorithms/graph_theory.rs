//! What the contracts of the graph algorithms speak of: edges, walks, reach, cycles,
//! and the lemmas about them.

use vstd::prelude::*;

verus! {

/// Every vertex named in an adjacency list is a vertex of the graph.
pub open spec fn wf_adj(adj: Seq<Seq<usize>>) -> bool {
    forall|v: int, i: int|
        0 <= v < adj.len() && 0 <= i < adj[v].len() ==> (#[trigger] adj[v][i]) < adj.len()
}

/// The graph has an edge from `v` to `w`.
pub open spec fn has_edge(adj: Seq<Seq<usize>>, v: usize, w: usize) -> bool {
    v < adj.len() && w < adj.len() && adj[v as int].contains(w)
}

/// The graph has an edge from the vertex at place `i` of `p` to the next one.
pub open spec fn step_ok(adj: Seq<Seq<usize>>, p: Seq<usize>, i: int) -> bool {
    has_edge(adj, p[i], p[i + 1])
}

/// `p` is a walk along edges of the graph: at least one vertex, and an edge
/// from each vertex to the next.
pub open spec fn is_path(adj: Seq<Seq<usize>>, p: Seq<usize>) -> bool {
    &&& p.len() > 0
    &&& p[0] < adj.len()
    &&& forall|i: int| 0 <= i < p.len() - 1 ==> #[trigger] step_ok(adj, p, i)
}

/// In `links`, the vertex at place `i + 1` of `p` points back to the one at place `i`.
pub open spec fn link_ok(links: Seq<Option<usize>>, p: Seq<usize>, i: int) -> bool {
    0 <= p[i + 1] < links.len() && links[p[i + 1] as int] == Some(p[i])
}

/// Each vertex of `p` after the first points back, in `links`, to the one before it.
pub open spec fn follows_links(links: Seq<Option<usize>>, p: Seq<usize>) -> bool {
    forall|i: int| 0 <= i < p.len() - 1 ==> #[trigger] link_ok(links, p, i)
}

/// Every vertex of a walk is a vertex of the graph.
pub proof fn lemma_path_vertex(adj: Seq<Seq<usize>>, p: Seq<usize>, k: int)
    requires
        is_path(adj, p),
        0 <= k < p.len(),
    ensures
        p[k] < adj.len(),
{
    if k > 0 {
        assert(step_ok(adj, p, k - 1));
    }
}

/// `p` is a walk from `v` to `w`.
pub open spec fn path_from_to(adj: Seq<Seq<usize>>, p: Seq<usize>, v: usize, w: usize) -> bool {
    is_path(adj, p) && p[0] == v && p.last() == w
}

/// Some walk leads from `v` to `w`. Every vertex reaches itself.
pub open spec fn reachable(adj: Seq<Seq<usize>>, v: usize, w: usize) -> bool {
    exists|p: Seq<usize>| path_from_to(adj, p, v, w)
}

/// `v` and `w` reach each other.
pub open spec fn mutually_reachable(adj: Seq<Seq<usize>>, v: usize, w: usize) -> bool {
    reachable(adj, v, w) && reachable(adj, w, v)
}

/// The set of marked vertices is closed under the edges of the graph.
pub open spec fn closed_under_edges(adj: Seq<Seq<usize>>, marked: Seq<bool>) -> bool {
    forall|u: int, i: int|
        0 <= u < adj.len() && marked[u] && 0 <= i < adj[u].len() ==> marked[(#[trigger] adj[u][i])
            as int]
}

/// How many entries of `s` are `false`.
pub open spec fn count_false(s: Seq<bool>) -> nat
    decreases s.len(),
{
    if s.len() == 0 {
        0
    } else {
        count_false(s.drop_last()) + if s.last() {
            0nat
        } else {
            1nat
        }
    }
}

/// Every vertex reaches itself.
pub proof fn lemma_reachable_refl(adj: Seq<Seq<usize>>, v: usize)
    requires
        v < adj.len(),
    ensures
        reachable(adj, v, v),
{
    assert(path_from_to(adj, seq![v], v, v));
}

/// A walk with one more edge at its end is a walk.
pub proof fn lemma_path_extend(adj: Seq<Seq<usize>>, p: Seq<usize>, w: usize)
    requires
        is_path(adj, p),
        has_edge(adj, p.last(), w),
    ensures
        is_path(adj, p.push(w)),
        p.push(w)[0] == p[0],
        p.push(w).last() == w,
{
    let q = p.push(w);
    assert forall|i: int| 0 <= i < q.len() - 1 implies #[trigger] step_ok(adj, q, i) by {
        if i < p.len() - 1 {
            assert(step_ok(adj, p, i));
        }
    }
}

/// A walk with one more edge at its start is a walk.
pub proof fn lemma_path_prepend(adj: Seq<Seq<usize>>, u: usize, p: Seq<usize>)
    requires
        is_path(adj, p),
        has_edge(adj, u, p[0]),
    ensures
        is_path(adj, seq![u] + p),
        (seq![u] + p)[0] == u,
        (seq![u] + p).last() == p.last(),
{
    let q = seq![u] + p;
    assert forall|i: int| 0 <= i < q.len() - 1 implies #[trigger] step_ok(adj, q, i) by {
        if i > 0 {
            assert(step_ok(adj, p, i - 1));
            assert(q[i] == p[i - 1] && q[i + 1] == p[i - 1 + 1]);
        } else {
            assert(q[1] == p[0]);
        }
    }
}

/// What reaches the tail of an edge reaches its head.
pub proof fn lemma_reachable_step(adj: Seq<Seq<usize>>, v: usize, u: usize, w: usize)
    requires
        reachable(adj, v, u),
        has_edge(adj, u, w),
    ensures
        reachable(adj, v, w),
{
    let p = choose|p: Seq<usize>| path_from_to(adj, p, v, u);
    lemma_path_extend(adj, p, w);
    assert(path_from_to(adj, p.push(w), v, w));
}

/// A walk followed by one that starts where it ends is a walk.
pub proof fn lemma_path_concat(adj: Seq<Seq<usize>>, p: Seq<usize>, q: Seq<usize>)
    requires
        is_path(adj, p),
        is_path(adj, q),
        p.last() == q[0],
    ensures
        is_path(adj, p + q.skip(1)),
        (p + q.skip(1))[0] == p[0],
        (p + q.skip(1)).last() == q.last(),
{
    let r = p + q.skip(1);
    assert forall|i: int| 0 <= i < r.len() - 1 implies #[trigger] step_ok(adj, r, i) by {
        if i < p.len() - 1 {
            assert(step_ok(adj, p, i));
            assert(r[i] == p[i] && r[i + 1] == p[i + 1]);
        } else if i == p.len() - 1 {
            assert(step_ok(adj, q, 0));
            assert(r[i] == q[0] && r[i + 1] == q[1]);
        } else {
            assert(step_ok(adj, q, i - p.len() + 1));
            assert(r[i] == q[i - p.len() + 1] && r[i + 1] == q[i - p.len() + 2]);
        }
    }
}

/// Reaching is transitive.
pub proof fn lemma_reachable_trans(adj: Seq<Seq<usize>>, u: usize, v: usize, w: usize)
    requires
        reachable(adj, u, v),
        reachable(adj, v, w),
    ensures
        reachable(adj, u, w),
{
    let p = choose|p: Seq<usize>| path_from_to(adj, p, u, v);
    let q = choose|q: Seq<usize>| path_from_to(adj, q, v, w);
    lemma_path_concat(adj, p, q);
    assert(path_from_to(adj, p + q.skip(1), u, w));
}

/// A walk that starts inside a set closed under edges never leaves it.
pub proof fn lemma_path_stays_marked(
    adj: Seq<Seq<usize>>,
    marked: Seq<bool>,
    p: Seq<usize>,
    k: int,
)
    requires
        marked.len() == adj.len(),
        closed_under_edges(adj, marked),
        is_path(adj, p),
        marked[p[0] as int],
        0 <= k < p.len(),
    ensures
        marked[p[k] as int],
    decreases k,
{
    if k > 0 {
        lemma_path_stays_marked(adj, marked, p, k - 1);
        let u = p[k - 1];
        assert(step_ok(adj, p, k - 1));
        let i = choose|i: int| 0 <= i < adj[u as int].len() && adj[u as int][i] == p[k];
        assert(marked[adj[u as int][i] as int]);
    }
}

/// A set closed under edges holds whatever one of its vertices reaches.
pub proof fn lemma_closed_holds_reachable(
    adj: Seq<Seq<usize>>,
    marked: Seq<bool>,
    v: usize,
    w: usize,
)
    requires
        marked.len() == adj.len(),
        closed_under_edges(adj, marked),
        v < adj.len(),
        marked[v as int],
        reachable(adj, v, w),
    ensures
        marked[w as int],
{
    let p = choose|p: Seq<usize>| path_from_to(adj, p, v, w);
    lemma_path_stays_marked(adj, marked, p, p.len() - 1);
}

/// No more entries are `false` than there are entries.
pub proof fn lemma_count_false_bound(s: Seq<bool>)
    ensures
        count_false(s) <= s.len(),
    decreases s.len(),
{
    if s.len() > 0 {
        lemma_count_false_bound(s.drop_last());
    }
}

/// Marking one unmarked entry lowers the count by one.
pub proof fn lemma_count_false_mark(s: Seq<bool>, k: int)
    requires
        0 <= k < s.len(),
        !s[k],
    ensures
        count_false(s.update(k, true)) + 1 == count_false(s),
    decreases s.len(),
{
    let t = s.update(k, true);
    if k == s.len() - 1 {
        assert(t.drop_last() =~= s.drop_last());
    } else {
        lemma_count_false_mark(s.drop_last(), k);
        assert(t.drop_last() =~= s.drop_last().update(k, true));
    }
}

/// How many times `w` occurs in `s`.
pub open spec fn count_in(s: Seq<usize>, w: usize) -> nat
    decreases s.len(),
{
    if s.len() == 0 {
        0
    } else {
        count_in(s.drop_last(), w) + if s.last() == w {
            1nat
        } else {
            0nat
        }
    }
}

/// `k` copies of `v`.
pub open spec fn copies(k: nat, v: usize) -> Seq<usize> {
    Seq::new(k, |j: int| v)
}

/// The tails of the edges into `w` that leave one of the first `upto`
/// vertices, each tail once per such edge, smaller tails first.
pub open spec fn edges_into(adj: Seq<Seq<usize>>, w: usize, upto: int) -> Seq<usize>
    decreases upto,
{
    if upto <= 0 {
        Seq::empty()
    } else {
        edges_into(adj, w, upto - 1) + copies(count_in(adj[upto - 1], w), (upto - 1) as usize)
    }
}

/// The graph with every edge turned round.
pub open spec fn reversed(adj: Seq<Seq<usize>>) -> Seq<Seq<usize>> {
    Seq::new(adj.len(), |w: int| edges_into(adj, w as usize, adj.len() as int))
}

/// A value occurs in a sequence exactly when it is counted in it.
pub proof fn lemma_count_in_contains(s: Seq<usize>, w: usize)
    ensures
        count_in(s, w) > 0 <==> s.contains(w),
    decreases s.len(),
{
    if s.len() > 0 {
        lemma_count_in_contains(s.drop_last(), w);
        if s.last() == w {
            assert(s[s.len() - 1] == w);
        } else if s.contains(w) {
            let i = choose|i: int| 0 <= i < s.len() && s[i] == w;
            assert(s.drop_last()[i] == w);
        } else if s.drop_last().contains(w) {
            let i = choose|i: int| 0 <= i < s.drop_last().len() && s.drop_last()[i] == w;
            assert(s[i] == w);
        }
    }
}

/// `v` is among the tails of the edges into `w` exactly when the graph has
/// an edge from `v` to `w`.
pub proof fn lemma_edges_into_contains(adj: Seq<Seq<usize>>, w: usize, upto: int, v: usize)
    requires
        0 <= upto <= adj.len(),
        adj.len() <= usize::MAX,
    ensures
        edges_into(adj, w, upto).contains(v) <==> v < upto && adj[v as int].contains(w),
        forall|i: int| 0 <= i < edges_into(adj, w, upto).len()
            ==> edges_into(adj, w, upto)[i] < upto,
    decreases upto,
{
    if upto > 0 {
        let head = copies(count_in(adj[upto - 1], w), (upto - 1) as usize);
        let tail = edges_into(adj, w, upto - 1);
        let all = edges_into(adj, w, upto);
        lemma_edges_into_contains(adj, w, upto - 1, v);
        lemma_count_in_contains(adj[upto - 1], w);
        assert(all == tail + head);
        if all.contains(v) {
            let i = choose|i: int| 0 <= i < all.len() && all[i] == v;
            if i < tail.len() {
                assert(tail[i] == v);
            } else {
                assert(head[i - tail.len()] == v);
            }
        }
        if v < upto && adj[v as int].contains(w) {
            if v == upto - 1 {
                assert(all[tail.len() as int] == head[0]);
            } else {
                let i = choose|i: int| 0 <= i < tail.len() && tail[i] == v;
                assert(all[i] == tail[i]);
            }
        }
        assert forall|i: int| 0 <= i < all.len() implies all[i] < upto by {
            if i >= tail.len() {
                assert(all[i] == head[i - tail.len()]);
            }
        }
    }
}

/// Turning the edges round gives a graph over the same vertices, with an
/// edge from `w` to `v` exactly where the first has one from `v` to `w`.
pub proof fn lemma_reversed_edges(adj: Seq<Seq<usize>>)
    requires
        wf_adj(adj),
        adj.len() <= usize::MAX,
    ensures
        reversed(adj).len() == adj.len(),
        wf_adj(reversed(adj)),
        forall|v: usize, w: usize| has_edge(reversed(adj), w, v) <==> has_edge(adj, v, w),
{
    let r = reversed(adj);
    assert forall|w: int, i: int| 0 <= w < r.len() && 0 <= i < r[w].len()
        implies (#[trigger] r[w][i])
        < r.len() by {
        lemma_edges_into_contains(adj, w as usize, adj.len() as int, 0);
    }
    assert forall|v: usize, w: usize| has_edge(r, w, v) <==> has_edge(adj, v, w) by {
        if w < adj.len() {
            lemma_edges_into_contains(adj, w, adj.len() as int, v);
        }
        if has_edge(adj, v, w) {
        }
    }
}

/// Turning the edges round twice gives back the edges of the first graph.
pub proof fn lemma_reverse_twice_same_edges(adj: Seq<Seq<usize>>)
    requires
        wf_adj(adj),
        adj.len() <= usize::MAX,
    ensures
        reversed(reversed(adj)).len() == adj.len(),
        forall|v: usize, w: usize| has_edge(reversed(reversed(adj)), v, w) <==> has_edge(adj, v, w),
{
    lemma_reversed_edges(adj);
    lemma_reversed_edges(reversed(adj));
}

/// `c` is a directed cycle: a walk whose last vertex has an edge back to
/// its first. A single vertex with an edge to itself is one.
pub open spec fn is_cycle(adj: Seq<Seq<usize>>, c: Seq<usize>) -> bool {
    is_path(adj, c) && has_edge(adj, c.last(), c[0])
}

/// The graph has no directed cycle.
pub open spec fn is_dag(adj: Seq<Seq<usize>>) -> bool {
    forall|c: Seq<usize>| !is_cycle(adj, c)
}

/// `order` lists every vertex once, and wherever an edge leads from a
/// later vertex of the list to an earlier one, the two lie on a cycle.
pub open spec fn is_reverse_postorder(adj: Seq<Seq<usize>>, order: Seq<usize>) -> bool {
    &&& order.len() == adj.len()
    &&& forall|a: int| 0 <= a < order.len() ==> (#[trigger] order[a]) < adj.len()
    &&& forall|u: usize| u < adj.len() ==> #[trigger] order.contains(u)
    &&& forall|a: int, b: int|
        0 <= a < b < order.len() ==> (#[trigger] order[a]) != (#[trigger] order[b])
    &&& forall|a: int, b: int|
        0 <= a < order.len() && 0 <= b < order.len() && #[trigger] has_edge(
            adj,
            order[a],
            order[b],
        ) ==> a < b || reachable(adj, order[b], order[a])
}

/// Every edge of the graph leads from an earlier vertex of `order` to a later one.
pub open spec fn is_topological_order(adj: Seq<Seq<usize>>, order: Seq<usize>) -> bool {
    forall|a: int, b: int|
        0 <= a < order.len() && 0 <= b < order.len() && #[trigger] has_edge(
            adj,
            order[a],
            order[b],
        ) ==> a < b
}

/// The tail of an edge reaches its head.
pub proof fn lemma_edge_reachable(adj: Seq<Seq<usize>>, v: usize, w: usize)
    requires
        has_edge(adj, v, w),
    ensures
        reachable(adj, v, w),
{
    lemma_reachable_refl(adj, v);
    lemma_reachable_step(adj, v, v, w);
}

/// A walk from `w` to `u` and an edge from `u` to `w` make a cycle.
pub proof fn lemma_back_edge_cycle(adj: Seq<Seq<usize>>, u: usize, w: usize)
    requires
        has_edge(adj, u, w),
        reachable(adj, w, u),
    ensures
        !is_dag(adj),
{
    let p = choose|p: Seq<usize>| path_from_to(adj, p, w, u);
    assert(is_cycle(adj, p));
}

/// In a graph without cycles a reverse postorder is a topological order.
pub proof fn lemma_dag_reverse_postorder(adj: Seq<Seq<usize>>, order: Seq<usize>)
    requires
        is_dag(adj),
        is_reverse_postorder(adj, order),
    ensures
        is_topological_order(adj, order),
{
    assert forall|a: int, b: int|
        0 <= a < order.len() && 0 <= b < order.len() && #[trigger] has_edge(
            adj,
            order[a],
            order[b],
        ) implies a < b by {
        if reachable(adj, order[b], order[a]) {
            lemma_back_edge_cycle(adj, order[a], order[b]);
        }
    }
}

/// Where every entry is `true`, none is counted.
pub proof fn lemma_count_false_none(s: Seq<bool>)
    requires
        forall|i: int| 0 <= i < s.len() ==> s[i],
    ensures
        count_false(s) == 0,
    decreases s.len(),
{
    if s.len() > 0 {
        lemma_count_false_none(s.drop_last());
    }
}

/// `radj` has the vertices of `adj`, and an edge from `w` to `v` exactly
/// where `adj` has one from `v` to `w`.
pub open spec fn edges_turned(adj: Seq<Seq<usize>>, radj: Seq<Seq<usize>>) -> bool {
    &&& radj.len() == adj.len()
    &&& forall|v: usize, w: usize| #[trigger] has_edge(radj, w, v) <==> has_edge(adj, v, w)
}

/// A walk read backwards is a walk in the graph with the edges turned round.
pub proof fn lemma_reverse_path(adj: Seq<Seq<usize>>, radj: Seq<Seq<usize>>, p: Seq<usize>)
    requires
        edges_turned(adj, radj),
        is_path(radj, p),
    ensures
        is_path(adj, p.reverse()),
{
    let q = p.reverse();
    lemma_path_vertex(radj, p, p.len() - 1);
    assert forall|i: int| 0 <= i < q.len() - 1 implies #[trigger] step_ok(adj, q, i) by {
        let k = p.len() - 2 - i;
        assert(step_ok(radj, p, k));
        assert(q[i] == p[k + 1] && q[i + 1] == p[k]);
        assert(has_edge(radj, p[k], p[k + 1]));
    }
}

/// What reaches a vertex is reached by it once the edges are turned round.
pub proof fn lemma_reverse_reachable(
    adj: Seq<Seq<usize>>,
    radj: Seq<Seq<usize>>,
    a: usize,
    b: usize,
)
    requires
        edges_turned(adj, radj),
        reachable(radj, a, b),
    ensures
        reachable(adj, b, a),
{
    let p = choose|p: Seq<usize>| path_from_to(radj, p, a, b);
    lemma_reverse_path(adj, radj, p);
    assert(path_from_to(adj, p.reverse(), b, a));
}

/// Reaching each other is reflexive, symmetric and transitive.
pub proof fn lemma_mutually_reachable_equivalence(
    adj: Seq<Seq<usize>>,
    u: usize,
    v: usize,
    w: usize,
)
    requires
        u < adj.len(),
    ensures
        mutually_reachable(adj, u, u),
        mutually_reachable(adj, u, v) ==> mutually_reachable(adj, v, u),
        mutually_reachable(adj, u, v) && mutually_reachable(adj, v, w) ==> mutually_reachable(
            adj,
            u,
            w,
        ),
{
    lemma_reachable_refl(adj, u);
    if mutually_reachable(adj, u, v) && mutually_reachable(adj, v, w) {
        lemma_reachable_trans(adj, u, v, w);
        lemma_reachable_trans(adj, w, v, u);
    }
}

/// Some vertex has the label `c`.
pub open spec fn label_used(ids: Seq<Option<usize>>, c: usize) -> bool {
    exists|u: int| 0 <= u < ids.len() && #[trigger] ids[u] == Some(c)
}

/// Every marked vertex outside `open` has all its neighbours marked.
pub open spec fn closed_except(adj: Seq<Seq<usize>>, marked: Seq<bool>, open: Set<usize>) -> bool {
    forall|u: int, i: int|
        0 <= u < adj.len() && marked[u] && !open.contains(u as usize) && 0 <= i < adj[u].len()
            ==> marked[(#[trigger] adj[u][i]) as int]
}

/// The marked vertices are whole classes of vertices that reach each
/// other, each class with a label of its own, and the labels in use are `0..count`.
pub open spec fn components_labelled(
    adj: Seq<Seq<usize>>,
    marked: Seq<bool>,
    ids: Seq<Option<usize>>,
    count: usize,
) -> bool {
    &&& wf_adj(adj)
    &&& adj.len() <= usize::MAX
    &&& marked.len() == adj.len()
    &&& ids.len() == adj.len()
    &&& closed_under_edges(adj, marked)
    &&& forall|u: int| 0 <= u < adj.len() ==> (#[trigger] marked[u] <==> ids[u] is Some)
    &&& forall|u: int| 0 <= u < adj.len() && #[trigger] marked[u] ==> ids[u]->0 < count
    &&& forall|u: usize, w: usize|
        u < adj.len() && w < adj.len() && marked[u as int] && marked[w as int] ==> (ids[u as int]
            == ids[w as int] <==> #[trigger] mutually_reachable(adj, u, w))
    &&& forall|c: usize| c < count ==> #[trigger] label_used(ids, c)
    &&& count + count_false(marked) <= adj.len()
}

/// A search from `root` has marked, and labelled `label`, vertices that
/// `root` reaches and that were not marked before; it has left the
/// others as they were, and the marked vertices are closed under the edges.
pub open spec fn labelled_from(
    adj: Seq<Seq<usize>>,
    marked0: Seq<bool>,
    ids0: Seq<Option<usize>>,
    marked1: Seq<bool>,
    ids1: Seq<Option<usize>>,
    label: usize,
    root: usize,
) -> bool {
    &&& marked1.len() == adj.len()
    &&& ids1.len() == adj.len()
    &&& root < adj.len()
    &&& marked1[root as int]
    &&& closed_under_edges(adj, marked1)
    &&& count_false(marked1) < count_false(marked0)
    &&& forall|u: int| 0 <= u < adj.len() && marked0[u] ==> #[trigger] marked1[u]
    &&& forall|u: int| 0 <= u < adj.len() && marked0[u] ==> #[trigger] ids1[u] == ids0[u]
    &&& forall|u: int|
        0 <= u < adj.len() && !marked0[u] && #[trigger] marked1[u] ==> ids1[u] == Some(label)
            && reachable(adj, root, u as usize)
    &&& forall|u: int| 0 <= u < adj.len() && !#[trigger] marked1[u] ==> ids1[u] == ids0[u]
}

/// Along a walk in a set closed under edges, whatever follows a marked
/// vertex is marked.
pub proof fn lemma_suffix_marked(
    adj: Seq<Seq<usize>>,
    marked: Seq<bool>,
    p: Seq<usize>,
    m: int,
    k: int,
)
    requires
        marked.len() == adj.len(),
        closed_under_edges(adj, marked),
        is_path(adj, p),
        0 <= m <= k < p.len(),
        p[m] < adj.len(),
        marked[p[m] as int],
    ensures
        marked[p[k] as int],
    decreases k - m,
{
    if k > m {
        lemma_suffix_marked(adj, marked, p, m, k - 1);
        let u = p[k - 1];
        assert(step_ok(adj, p, k - 1));
        let e = choose|e: int| 0 <= e < adj[u as int].len() && adj[u as int][e] == p[k];
        assert(marked[adj[u as int][e] as int]);
    }
}

/// Once the search from an unmarked root `r` has marked and labelled all
/// it could, and each vertex it marked reaches `r` in turn, the marked
/// vertices are again whole classes, with one more label in use.
pub proof fn lemma_component_labelled(
    adj: Seq<Seq<usize>>,
    marked0: Seq<bool>,
    ids0: Seq<Option<usize>>,
    count: usize,
    marked1: Seq<bool>,
    ids1: Seq<Option<usize>>,
    r: usize,
)
    requires
        components_labelled(adj, marked0, ids0, count),
        labelled_from(adj, marked0, ids0, marked1, ids1, count, r),
        !marked0[r as int],
        count < usize::MAX,
        forall|x: usize|
            x < adj.len() && !marked0[x as int] && marked1[x as int]
                ==> #[trigger] mutually_reachable(adj, r, x),
    ensures
        components_labelled(adj, marked1, ids1, (count + 1) as usize),
{
    assert forall|u: int| 0 <= u < adj.len()
        implies (#[trigger] marked1[u] <==> ids1[u] is Some) by {
        assert(marked0[u] <==> ids0[u] is Some);
        if marked0[u] {
            assert(ids1[u] == ids0[u]);
        }
    }
    assert forall|u: int| 0 <= u < adj.len() && #[trigger] marked1[u] implies ids1[u]->0 < count
        + 1 by {
        if marked0[u] {
            assert(ids1[u] == ids0[u]);
        }
    }
    assert forall|u: usize, w: usize|
        u < adj.len() && w < adj.len() && marked1[u as int] && marked1[w as int]
            implies (ids1[u as int]
        == ids1[w as int] <==> #[trigger] mutually_reachable(adj, u, w)) by {
        let pu = marked0[u as int];
        let pw = marked0[w as int];
        assert(marked1[u as int] && marked1[w as int]);
        if pu {
            assert(ids1[u as int] == ids0[u as int]);
            assert(ids0[u as int]->0 < count);
        }
        if pw {
            assert(ids1[w as int] == ids0[w as int]);
            assert(ids0[w as int]->0 < count);
        }
        if pu && pw {
            assert(ids0[u as int] == ids0[w as int] <==> mutually_reachable(adj, u, w));
        } else if !pu && !pw {
            assert(mutually_reachable(adj, r, u));
            assert(mutually_reachable(adj, r, w));
            lemma_reachable_trans(adj, u, r, w);
            lemma_reachable_trans(adj, w, r, u);
        } else if pu {
            if reachable(adj, u, w) {
                lemma_closed_holds_reachable(adj, marked0, u, w);
            }
        } else {
            if reachable(adj, w, u) {
                lemma_closed_holds_reachable(adj, marked0, w, u);
            }
        }
    }
    assert forall|c: usize| c < count + 1 implies #[trigger] label_used(ids1, c) by {
        if c < count {
            assert(label_used(ids0, c));
            let u = choose|u: int| 0 <= u < ids0.len() && #[trigger] ids0[u] == Some(c);
            assert(marked0[u]);
            assert(ids1[u] == ids0[u]);
        } else {
            assert(ids1[r as int] == Some(c));
        }
    }
}

/// The graph with one more edge, from `v` to `w`, at the end of the list of `v`.
pub open spec fn with_edge(adj: Seq<Seq<usize>>, v: usize, w: usize) -> Seq<Seq<usize>> {
    adj.update(v as int, adj[v as int].push(w))
}

/// Wherever the graph has an edge it has the opposite edge too.
pub open spec fn symmetric(adj: Seq<Seq<usize>>) -> bool {
    forall|v: usize, w: usize| #[trigger] has_edge(adj, v, w) ==> has_edge(adj, w, v)
}

/// The edges of the graph with one more edge are the old ones and the new one.
pub proof fn lemma_with_edge(adj: Seq<Seq<usize>>, v: usize, w: usize, a: usize, b: usize)
    requires
        v < adj.len(),
        w < adj.len(),
    ensures
        has_edge(with_edge(adj, v, w), a, b) <==> has_edge(adj, a, b) || (a == v && b == w),
{
    let next = with_edge(adj, v, w);
    if a < adj.len() && b < adj.len() {
        if a == v {
            let list = adj[v as int];
            let longer = list.push(w);
            assert(next[a as int] == longer);
            if longer.contains(b) {
                let i = choose|i: int| 0 <= i < longer.len() && longer[i] == b;
                if i < list.len() {
                    assert(list[i] == b);
                }
            }
            if list.contains(b) {
                let i = choose|i: int| 0 <= i < list.len() && list[i] == b;
                assert(longer[i] == b);
            }
            if b == w {
                assert(longer[list.len() as int] == w);
            }
        } else {
            assert(next[a as int] == adj[a as int]);
        }
    }
}

/// One more edge between vertices of the graph keeps every edge inside the graph.
pub proof fn lemma_with_edge_wf(adj: Seq<Seq<usize>>, v: usize, w: usize)
    requires
        wf_adj(adj),
        v < adj.len(),
        w < adj.len(),
    ensures
        wf_adj(with_edge(adj, v, w)),
{
    let next = with_edge(adj, v, w);
    assert forall|u: int, i: int| 0 <= u < next.len() && 0 <= i < next[u].len() implies (
    #[trigger] next[u][i]) < next.len() by {
        if u == v && i < adj[u].len() {
            assert(next[u][i] == adj[u][i]);
        }
    }
}

/// In a graph that has every edge in both directions, whatever a vertex
/// reaches also reaches it.
pub proof fn lemma_symmetric_reachable(adj: Seq<Seq<usize>>, a: usize, b: usize)
    requires
        symmetric(adj),
        reachable(adj, a, b),
    ensures
        reachable(adj, b, a),
{
    assert(edges_turned(adj, adj)) by {
        assert forall|v: usize, w: usize| #[trigger] has_edge(adj, w, v) <==> has_edge(adj, v,
            w) by {
            if has_edge(adj, v, w) {
            }
            if has_edge(adj, w, v) {
            }
        }
    }
    lemma_reverse_reachable(adj, adj, a, b);
}

/// The walk that a list of vertices stands for: the list itself if it
/// ends at the vertex `v` that the walk leads to, and the list with `v`
/// after it if the list leaves `v` out.
pub open spec fn whole_walk(list: Seq<usize>, v: usize, ends_at_target: bool) -> Seq<usize> {
    if ends_at_target {
        list
    } else {
        list.push(v)
    }
}

/// Along `walk` the rank rises with every step.
pub open spec fn ranks_rise(rank: Seq<nat>, walk: Seq<usize>) -> bool {
    forall|a: int, b: int|
        0 <= a < b < walk.len() ==> rank[(#[trigger] walk[a]) as int] < rank[(
        #[trigger] walk[b]) as int]
}

/// A walk along which the rank rises meets no vertex twice.
pub proof fn lemma_ranks_rise_distinct(rank: Seq<nat>, walk: Seq<usize>)
    requires
        ranks_rise(rank, walk),
    ensures
        walk.no_duplicates(),
{
    assert forall|a: int, b: int| 0 <= a < walk.len() && 0 <= b < walk.len() && a != b
        implies walk[a]
        != walk[b] by {
        if a < b {
            assert(rank[walk[a] as int] < rank[walk[b] as int]);
        } else {
            assert(rank[walk[b] as int] < rank[walk[a] as int]);
        }
    }
}

/// One more vertex of lower rank at the start of a walk along which the
/// rank rises.
pub proof fn lemma_ranks_rise_prepend(rank: Seq<nat>, p: usize, walk: Seq<usize>)
    requires
        ranks_rise(rank, walk),
        walk.len() > 0,
        rank[p as int] < rank[walk[0] as int],
    ensures
        ranks_rise(rank, seq![p] + walk),
{
    let longer = seq![p] + walk;
    assert forall|a: int, b: int| 0 <= a < b < longer.len() implies rank[(
    #[trigger] longer[a]) as int] < rank[(#[trigger] longer[b]) as int] by {
        assert(longer[b] == walk[b - 1]);
        if a > 0 {
            assert(longer[a] == walk[a - 1]);
        } else if b > 1 {
            assert(rank[walk[0] as int] < rank[walk[b - 1] as int]);
        }
    }
}

/// Links followed at the start of a walk that follows links.
pub proof fn lemma_links_prepend(links: Seq<Option<usize>>, p: usize, walk: Seq<usize>)
    requires
        follows_links(links, walk),
        walk.len() > 0,
        walk[0] < links.len(),
        links[walk[0] as int] == Some(p),
    ensures
        follows_links(links, seq![p] + walk),
{
    let longer = seq![p] + walk;
    assert forall|i: int| 0 <= i < longer.len() - 1
        implies #[trigger] link_ok(links, longer, i) by {
        if i > 0 {
            assert(link_ok(links, walk, i - 1));
            assert(longer[i + 1] == walk[i - 1 + 1]);
            assert(longer[i] == walk[i - 1]);
        } else {
            assert(longer[1] == walk[0]);
        }
    }
}

} // verus!
