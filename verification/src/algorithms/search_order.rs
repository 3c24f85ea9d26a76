//! What each search of a graph finds, as a function of the adjacency lists alone.

use crate::algorithms::graph_theory::{
    follows_links, has_edge, is_cycle, is_path, link_ok, step_ok,
};
use vstd::prelude::*;

verus! {

/// A list of edges in the order in which a search takes them: as they
/// were added, or, if `newest_first` holds, from the one added last to
/// the one added first.
pub open spec fn scan_order(list: Seq<usize>, newest_first: bool) -> Seq<usize> {
    if newest_first {
        list.reverse()
    } else {
        list
    }
}

/// The edge that a search takes at step `i` is an edge of the list.
pub proof fn lemma_scan_order(list: Seq<usize>, newest_first: bool, i: int)
    requires
        0 <= i < list.len(),
    ensures
        scan_order(list, newest_first).len() == list.len(),
        list.contains(scan_order(list, newest_first)[i]),
        scan_order(list, newest_first)[i] == list[if newest_first {
            list.len() - 1 - i
        } else {
            i
        }],
        list[i] == scan_order(list, newest_first)[if newest_first {
            list.len() - 1 - i
        } else {
            i
        }],
{
    if newest_first {
        assert(list[list.len() - 1 - i] == list.reverse()[i]);
    } else {
        assert(list[i] == list[i]);
    }
}

/// No vertex marked.
pub open spec fn unmarked(n: nat) -> Seq<bool> {
    Seq::new(n, |v: int| false)
}

/// The marks and the postorder after a depth-first search that enters
/// the unmarked vertex `v`: `v` is marked, its edges are followed from
/// the one added last to the one added first, and `v` is put at the end of the postorder. `fuel`
/// bounds how deep the search may go; the number of unmarked vertices is
/// always enough.
pub open spec fn post_visit(
    adj: Seq<Seq<usize>>,
    marked: Seq<bool>,
    post: Seq<usize>,
    v: usize,
    fuel: nat,
) -> (Seq<bool>, Seq<usize>)
    decreases fuel, 0nat,
{
    if fuel == 0 {
        (marked, post)
    } else {
        let done = post_scan(adj, marked.update(v as int, true), post, v, 0, (fuel - 1) as nat);
        (done.0, done.1.push(v))
    }
}

/// The marks and the postorder after the edges of `v` from step `i` on have
/// been followed, the steps taking its list from the last entry to the first: each that leads to an
/// unmarked vertex
/// is followed by a search that enters that vertex.
pub open spec fn post_scan(
    adj: Seq<Seq<usize>>,
    marked: Seq<bool>,
    post: Seq<usize>,
    v: usize,
    i: int,
    fuel: nat,
) -> (Seq<bool>, Seq<usize>)
    decreases fuel, 1 + adj[v as int].len() - i,
{
    if i < 0 || i >= adj[v as int].len() {
        (marked, post)
    } else {
        let w = scan_order(adj[v as int], true)[i];
        if w < marked.len() && !marked[w as int] {
            let below = post_visit(adj, marked, post, w, fuel);
            post_scan(adj, below.0, below.1, v, i + 1, fuel)
        } else {
            post_scan(adj, marked, post, v, i + 1, fuel)
        }
    }
}

/// The marks and the postorder after a search has entered, in rising
/// order, each vertex from `from` on that was not marked by then.
pub open spec fn post_all(
    adj: Seq<Seq<usize>>,
    marked: Seq<bool>,
    post: Seq<usize>,
    from: int,
) -> (Seq<bool>, Seq<usize>)
    decreases adj.len() - from,
{
    if from < 0 || from >= adj.len() {
        (marked, post)
    } else if !marked[from] {
        let below = post_visit(adj, marked, post, from as usize, adj.len());
        post_all(adj, below.0, below.1, from + 1)
    } else {
        post_all(adj, marked, post, from + 1)
    }
}

/// The vertices of the graph in the reverse of the order in which a
/// depth-first search leaves them that enters, in rising order, each
/// vertex not reached before, and follows the edges out of each vertex
/// from the one added last to the one added first.
pub open spec fn reverse_postorder(adj: Seq<Seq<usize>>) -> Seq<usize> {
    post_all(adj, unmarked(adj.len()), Seq::empty(), 0).1.reverse()
}

/// No vertex found from another.
pub open spec fn no_links(n: nat) -> Seq<Option<usize>> {
    Seq::new(n, |v: int| None::<usize>)
}

/// The marks and the links after a depth-first search that enters the
/// unmarked vertex `v`: `v` is marked and its edges are followed from
/// the one added last to the one added first. `fuel` bounds how deep the search may go; the
/// number of unmarked vertices is always enough.
pub open spec fn tree_visit(
    adj: Seq<Seq<usize>>,
    marked: Seq<bool>,
    links: Seq<Option<usize>>,
    v: usize,
    fuel: nat,
) -> (Seq<bool>, Seq<Option<usize>>)
    decreases fuel, 0nat,
{
    if fuel == 0 {
        (marked, links)
    } else {
        tree_scan(adj, marked.update(v as int, true), links, v, 0, (fuel - 1) as nat)
    }
}

/// The marks and the links after the edges of `v` from step `i` on have
/// been followed, the steps taking its list from the last entry to the first: each that leads to an
/// unmarked vertex
/// gives that vertex its link to `v` and is followed by a search that
/// enters it.
pub open spec fn tree_scan(
    adj: Seq<Seq<usize>>,
    marked: Seq<bool>,
    links: Seq<Option<usize>>,
    v: usize,
    i: int,
    fuel: nat,
) -> (Seq<bool>, Seq<Option<usize>>)
    decreases fuel, 1 + adj[v as int].len() - i,
{
    if i < 0 || i >= adj[v as int].len() {
        (marked, links)
    } else {
        let w = scan_order(adj[v as int], true)[i];
        if w < marked.len() && !marked[w as int] {
            let below = tree_visit(adj, marked, links.update(w as int, Some(v)), w, fuel);
            tree_scan(adj, below.0, below.1, v, i + 1, fuel)
        } else {
            tree_scan(adj, marked, links, v, i + 1, fuel)
        }
    }
}

/// For each vertex the one that a depth-first search from `origin`
/// first finds it from, where the search follows the edges out of each
/// vertex from the one added last to the one added first.
pub open spec fn depth_first_links(adj: Seq<Seq<usize>>, origin: usize) -> Seq<Option<usize>> {
    tree_visit(adj, unmarked(adj.len()), no_links(adj.len()), origin, adj.len()).1
}

/// The marks, the links and the queue after the edges of `v` from step
/// `i` on have been looked at, in the order of the list of `v` or, if
/// `newest_first` holds, from its last entry to its first: each that
/// leads to an unmarked vertex marks that vertex, gives it its link to
/// `v` and puts it at the back of the queue.
pub open spec fn level_scan(
    adj: Seq<Seq<usize>>,
    marked: Seq<bool>,
    links: Seq<Option<usize>>,
    queue: Seq<usize>,
    v: usize,
    i: int,
    newest_first: bool,
) -> (Seq<bool>, Seq<Option<usize>>, Seq<usize>)
    decreases adj[v as int].len() - i,
{
    if i < 0 || i >= adj[v as int].len() {
        (marked, links, queue)
    } else {
        let w = scan_order(adj[v as int], newest_first)[i];
        if w < marked.len() && !marked[w as int] {
            level_scan(
                adj,
                marked.update(w as int, true),
                links.update(w as int, Some(v)),
                queue.push(w),
                v,
                i + 1,
                newest_first,
            )
        } else {
            level_scan(adj, marked, links, queue, v, i + 1, newest_first)
        }
    }
}

/// The marks and the links once the queue has run empty: the vertex at
/// its front leaves it and has its edges looked at, again and again.
/// `fuel` bounds how many vertices may leave the queue; the number of
/// vertices that wait in it or are unmarked is always enough.
pub open spec fn level_loop(
    adj: Seq<Seq<usize>>,
    marked: Seq<bool>,
    links: Seq<Option<usize>>,
    queue: Seq<usize>,
    fuel: nat,
    newest_first: bool,
) -> (Seq<bool>, Seq<Option<usize>>)
    decreases fuel,
{
    if fuel == 0 || queue.len() == 0 {
        (marked, links)
    } else {
        let next = level_scan(adj, marked, links, queue.skip(1), queue[0], 0, newest_first);
        level_loop(adj, next.0, next.1, next.2, (fuel - 1) as nat, newest_first)
    }
}

/// For each vertex the one that a breadth-first search from `origin`
/// first finds it from, where the search looks at the edges out of each
/// vertex in the order in which they were added or, if `newest_first`
/// holds, from the one added last to the one added first.
pub open spec fn breadth_first_links(
    adj: Seq<Seq<usize>>,
    origin: usize,
    newest_first: bool,
) -> Seq<Option<usize>> {
    level_loop(
        adj,
        unmarked(adj.len()).update(origin as int, true),
        no_links(adj.len()),
        seq![origin],
        adj.len(),
        newest_first,
    ).1
}

/// How far a search for a cycle has come: the vertices it has entered,
/// those it is still below, the vertex that each was entered from, and
/// the cycle it has found, empty as long as it has found none.
pub struct CycleSearch {
    pub marked: Seq<bool>,
    pub on_stack: Seq<bool>,
    pub links: Seq<Option<usize>>,
    pub cycle: Seq<usize>,
}

/// The vertices met on the way back along the links from `x` until `w`
/// is met, the one met last first. `fuel` bounds the length of the way.
pub open spec fn way_back(links: Seq<Option<usize>>, x: Option<usize>, w: usize, fuel: nat) -> Seq<
    usize,
>
    decreases fuel,
{
    match x {
        Some(x) => if x == w || fuel == 0 || x >= links.len() {
            Seq::empty()
        } else {
            way_back(links, links[x as int], w, (fuel - 1) as nat).push(x)
        },
        None => Seq::empty(),
    }
}

/// The cycle that the edge from `v` to `w` closes, where the search is
/// below `w` still: `v`, then `w`, then the vertices on the way back
/// from `v` to `w`, the one next to `w` first. For an edge from a vertex
/// to itself it is that vertex alone.
pub open spec fn closed_cycle(links: Seq<Option<usize>>, v: usize, w: usize) -> Seq<usize> {
    if v == w {
        seq![v]
    } else {
        seq![v, w] + way_back(links, links[v as int], w, links.len())
    }
}

/// The search after it has entered the unmarked vertex `v`, followed
/// its edges from the one added last to the one added first and left it again.
pub open spec fn cycle_visit(adj: Seq<Seq<usize>>, s: CycleSearch, v: usize,
    fuel: nat) -> CycleSearch
    decreases fuel, 0nat,
{
    if fuel == 0 {
        s
    } else {
        let entered = CycleSearch {
            marked: s.marked.update(v as int, true),
            on_stack: s.on_stack.update(v as int, true),
            ..s
        };
        let done = cycle_scan(adj, entered, v, 0, (fuel - 1) as nat);
        CycleSearch { on_stack: done.on_stack.update(v as int, false), ..done }
    }
}

/// The search after the edges of `v` from step `i` on have
/// been followed, the steps taking its list from the last entry to the first, as long as no cycle
/// is found: an edge to an unmarked
/// vertex gives that vertex its link to `v` and is followed by entering
/// it; an edge to a vertex that the search is still below closes a cycle.
pub open spec fn cycle_scan(
    adj: Seq<Seq<usize>>,
    s: CycleSearch,
    v: usize,
    i: int,
    fuel: nat,
) -> CycleSearch
    decreases fuel, 1 + adj[v as int].len() - i,
{
    if i < 0 || i >= adj[v as int].len() || s.cycle.len() > 0 {
        s
    } else {
        let w = scan_order(adj[v as int], true)[i];
        if w >= s.marked.len() {
            cycle_scan(adj, s, v, i + 1, fuel)
        } else if !s.marked[w as int] {
            let linked = CycleSearch { links: s.links.update(w as int, Some(v)), ..s };
            cycle_scan(adj, cycle_visit(adj, linked, w, fuel), v, i + 1, fuel)
        } else if s.on_stack[w as int] {
            let found = CycleSearch { cycle: closed_cycle(s.links, v, w), ..s };
            cycle_scan(adj, found, v, i + 1, fuel)
        } else {
            cycle_scan(adj, s, v, i + 1, fuel)
        }
    }
}

/// The search after it has entered, in rising order, each vertex from
/// `from` on that was not marked by then.
pub open spec fn cycle_all(adj: Seq<Seq<usize>>, s: CycleSearch, from: int) -> CycleSearch
    decreases adj.len() - from,
{
    if from < 0 || from >= adj.len() {
        s
    } else if !s.marked[from] {
        cycle_all(adj, cycle_visit(adj, s, from as usize, adj.len()), from + 1)
    } else {
        cycle_all(adj, s, from + 1)
    }
}

/// The first cycle that a depth-first search of the graph finds, empty
/// if it finds none: the search enters, in rising order, each vertex not
/// reached before, and follows the edges out of each vertex from the one added last to
/// the one added first.
pub open spec fn first_cycle(adj: Seq<Seq<usize>>) -> Seq<usize> {
    cycle_all(
        adj,
        CycleSearch {
            marked: unmarked(adj.len()),
            on_stack: unmarked(adj.len()),
            links: no_links(adj.len()),
            cycle: Seq::empty(),
        },
        0,
    ).cycle
}

/// On a walk joined by links, the way back from the vertex at place `k`
/// to a vertex `w` that stands at place `stop` and nowhere between is
/// the part of the walk between the two.
pub proof fn lemma_way_back(
    links: Seq<Option<usize>>,
    walk: Seq<usize>,
    stop: int,
    k: int,
    w: usize,
    fuel: nat,
)
    requires
        0 <= stop <= k < walk.len(),
        walk[stop] == w,
        forall|j: int| stop < j <= k ==> walk[j] != w,
        forall|j: int|
            0 < j < walk.len() ==> (#[trigger] walk[j]) < links.len() && links[walk[j] as int]
                == Some(walk[j - 1]),
        fuel > k - stop,
    ensures
        way_back(links, Some(walk[k]), w, fuel) == walk.subrange(stop + 1, k + 1),
    decreases k - stop,
{
    if k == stop {
        assert(walk.subrange(stop + 1, k + 1) =~= Seq::<usize>::empty());
    } else {
        assert(walk[k] < links.len() && links[walk[k] as int] == Some(walk[k - 1]));
        lemma_way_back(links, walk, stop, k - 1, w, (fuel - 1) as nat);
        assert(walk.subrange(stop + 1, k).push(walk[k]) =~= walk.subrange(stop + 1, k + 1));
    }
}

/// The marks and the labels after a depth-first search that enters the
/// unmarked vertex `v`: `v` is marked and given `label`, and its edges
/// are followed from the one added last to the one added first. `fuel` bounds how deep the
/// search may go; the number of unmarked vertices is always enough.
pub open spec fn label_visit(
    adj: Seq<Seq<usize>>,
    marked: Seq<bool>,
    ids: Seq<Option<usize>>,
    label: usize,
    v: usize,
    fuel: nat,
) -> (Seq<bool>, Seq<Option<usize>>)
    decreases fuel, 0nat,
{
    if fuel == 0 {
        (marked, ids)
    } else {
        label_scan(
            adj,
            marked.update(v as int, true),
            ids.update(v as int, Some(label)),
            label,
            v,
            0,
            (fuel - 1) as nat,
        )
    }
}

/// The marks and the labels after the edges of `v` from step `i` on have
/// been followed, the steps taking its list from the last entry to the first: each that leads to an
/// unmarked vertex
/// is followed by a search that enters that vertex.
pub open spec fn label_scan(
    adj: Seq<Seq<usize>>,
    marked: Seq<bool>,
    ids: Seq<Option<usize>>,
    label: usize,
    v: usize,
    i: int,
    fuel: nat,
) -> (Seq<bool>, Seq<Option<usize>>)
    decreases fuel, 1 + adj[v as int].len() - i,
{
    if i < 0 || i >= adj[v as int].len() {
        (marked, ids)
    } else {
        let w = scan_order(adj[v as int], true)[i];
        if w < marked.len() && !marked[w as int] {
            let below = label_visit(adj, marked, ids, label, w, fuel);
            label_scan(adj, below.0, below.1, label, v, i + 1, fuel)
        } else {
            label_scan(adj, marked, ids, label, v, i + 1, fuel)
        }
    }
}

/// The marks, the labels and the number of labels in use after each
/// vertex of `order` from place `i` on that was not marked by then has
/// started a search that gave the next label to all it reached unmarked.
pub open spec fn label_in_order(
    adj: Seq<Seq<usize>>,
    marked: Seq<bool>,
    ids: Seq<Option<usize>>,
    count: nat,
    order: Seq<usize>,
    i: int,
) -> (Seq<bool>, Seq<Option<usize>>, nat)
    decreases order.len() - i,
{
    if i < 0 || i >= order.len() {
        (marked, ids, count)
    } else {
        let r = order[i];
        if r < marked.len() && !marked[r as int] {
            let below = label_visit(adj, marked, ids, count as usize, r, adj.len());
            label_in_order(adj, below.0, below.1, count + 1, order, i + 1)
        } else {
            label_in_order(adj, marked, ids, count, order, i + 1)
        }
    }
}

/// The vertices of the graph in rising order.
pub open spec fn rising(n: nat) -> Seq<usize> {
    Seq::new(n, |v: int| v as usize)
}

/// The labels of the strongly connected components and their number:
/// the vertices are taken in the reverse postorder of the graph with
/// its edges turned round, and each that has no label by then starts a
/// depth-first search of the graph that gives the next label to all it
/// reaches without one.
pub open spec fn strong_labels(adj: Seq<Seq<usize>>) -> (Seq<Option<usize>>, nat) {
    let done = label_in_order(
        adj,
        unmarked(adj.len()),
        no_links(adj.len()),
        0,
        reverse_postorder(crate::algorithms::graph_theory::reversed(adj)),
        0,
    );
    (done.1, done.2)
}

/// The labels of the connected components and their number: each vertex
/// that has no label by then, in rising order, starts a depth-first
/// search that gives the next label to all it reaches.
pub open spec fn component_labels(adj: Seq<Seq<usize>>) -> (Seq<Option<usize>>, nat) {
    let done = label_in_order(
        adj,
        unmarked(adj.len()),
        no_links(adj.len()),
        0,
        rising(adj.len()),
        0,
    );
    (done.1, done.2)
}

/// On a walk that is joined by links and meets no vertex twice, an edge
/// from its last vertex back to the vertex `w` at place `stop` closes
/// the cycle that the search keeps: the last vertex and then the walk
/// from `w` to the vertex before the last. It is a cycle of the graph
/// and meets no vertex twice.
pub proof fn lemma_closed_cycle(
    adj: Seq<Seq<usize>>,
    links: Seq<Option<usize>>,
    walk: Seq<usize>,
    stop: int,
    w: usize,
)
    requires
        is_path(adj, walk),
        follows_links(links, walk),
        walk.no_duplicates(),
        0 <= stop < walk.len() - 1,
        walk[stop] == w,
        has_edge(adj, walk.last(), w),
        walk.len() <= links.len(),
    ensures
        seq![walk.last()] + walk.subrange(stop, walk.len() - 1) == closed_cycle(
            links,
            walk.last(),
            w,
        ),
        is_cycle(adj, seq![walk.last()] + walk.subrange(stop, walk.len() - 1)),
        (seq![walk.last()] + walk.subrange(stop, walk.len() - 1)).no_duplicates(),
{
    let top = walk.len() - 1;
    let v = walk[top];
    let c = seq![v] + walk.subrange(stop, top);
    assert forall|j: int| 0 < j < walk.len() implies (#[trigger] walk[j]) < links.len()
        && links[walk[j] as int] == Some(walk[j - 1]) by {
        assert(link_ok(links, walk, j - 1));
    }
    lemma_way_back(links, walk, stop, top - 1, w, links.len());
    assert(walk.subrange(stop, top) =~= seq![w] + walk.subrange(stop + 1, top));
    assert(c =~= closed_cycle(links, v, w));
    assert forall|k: int| 0 <= k < c.len() - 1 implies #[trigger] step_ok(adj, c, k) by {
        if k > 0 {
            assert(step_ok(adj, walk, stop + k - 1));
            assert(c[k] == walk[stop + k - 1]);
            assert(c[k + 1] == walk[stop + k]);
        } else {
            assert(c[1] == w);
        }
    }
    assert(step_ok(adj, walk, top - 1));
    assert(c.last() == walk[top - 1]);
    assert(has_edge(adj, c.last(), c[0]));
    assert forall|a: int, b: int| 0 <= a < c.len() && 0 <= b < c.len() && a != b implies c[a]
        != c[b] by {
        let pa = if a == 0 {
            top
        } else {
            stop + a - 1
        };
        let pb = if b == 0 {
            top
        } else {
            stop + b - 1
        };
        assert(c[a] == walk[pa] && c[b] == walk[pb]);
    }
}

} // verus!
