//! Forests of parent links, as the union-find structures keep them.

use vstd::prelude::*;

verus! {

/// What holds of the element `i` in a forest of parent links: its parent
/// and its root are elements, its root is its own parent and the root of
/// its parent too, and its rank lies below that of its parent.
pub open spec fn node_ok(
    parent: Seq<usize>,
    rep: Seq<usize>,
    rank: Seq<nat>,
    top: nat,
    i: int,
) -> bool {
    &&& parent[i] < parent.len()
    &&& rep[i] < parent.len()
    &&& parent[rep[i] as int] == rep[i]
    &&& rep[parent[i] as int] == rep[i]
    &&& parent[i] == i ==> rep[i] == i
    &&& parent[i] != i ==> rank[i] < rank[parent[i] as int]
    &&& rank[i] <= top
}

/// `parent` links every element to a root, which is its own parent;
/// `rep` names the root of each element, and `rank` grows along every
/// link, up to `top` at most.
pub open spec fn forest_ok(parent: Seq<usize>, rep: Seq<usize>, rank: Seq<nat>, top: nat) -> bool {
    &&& rep.len() == parent.len()
    &&& rank.len() == parent.len()
    &&& forall|i: int| 0 <= i < parent.len() ==> #[trigger] node_ok(parent, rep, rank, top, i)
}

/// The roots after the tree of the root `from` has been hung below the root `to`.
pub open spec fn merged_rep(rep: Seq<usize>, from: usize, to: usize) -> Seq<usize> {
    Seq::new(
        rep.len(),
        |i: int|
            if rep[i] == from {
                to
            } else {
                rep[i]
            },
    )
}

/// The ranks after the tree of the root `from` has been hung below the
/// root `to`: that of `to` is raised above that of `from`.
pub open spec fn merged_rank(rank: Seq<nat>, from: usize, to: usize) -> Seq<nat> {
    if from != to && rank[to as int] <= rank[from as int] {
        rank.update(to as int, rank[from as int] + 1)
    } else {
        rank
    }
}

/// Every element is its own root at the start.
pub proof fn lemma_forest_identity(parent: Seq<usize>)
    requires
        forall|i: int| 0 <= i < parent.len() ==> parent[i] == i,
    ensures
        forest_ok(parent, parent, Seq::new(parent.len(), |i: int| 0nat), 0),
{
    let rank = Seq::new(parent.len(), |i: int| 0nat);
    assert forall|i: int| 0 <= i < parent.len() implies #[trigger] node_ok(
        parent,
        parent,
        rank,
        0,
        i,
    ) by {}
}

/// Hanging the root `from` below the root `to` keeps the forest, with
/// the roots and ranks merged.
pub proof fn lemma_forest_link(
    parent: Seq<usize>,
    rep: Seq<usize>,
    rank: Seq<nat>,
    top: nat,
    from: usize,
    to: usize,
)
    requires
        forest_ok(parent, rep, rank, top),
        from < parent.len(),
        to < parent.len(),
        parent[from as int] == from,
        parent[to as int] == to,
    ensures
        forest_ok(
            parent.update(from as int, to),
            merged_rep(rep, from, to),
            merged_rank(rank, from, to),
            top + 1,
        ),
{
    let parent2 = parent.update(from as int, to);
    let rep2 = merged_rep(rep, from, to);
    let rank2 = merged_rank(rank, from, to);
    assert(node_ok(parent, rep, rank, top, from as int));
    assert(node_ok(parent, rep, rank, top, to as int));
    assert forall|i: int| 0 <= i < parent2.len() implies #[trigger] node_ok(
        parent2,
        rep2,
        rank2,
        top + 1,
        i,
    ) by {
        assert(node_ok(parent, rep, rank, top, i));
        assert(node_ok(parent, rep, rank, top, rep[i] as int));
        assert(node_ok(parent, rep, rank, top, parent[i] as int));
    }
}

/// Linking an element to the parent of its parent keeps the forest, its
/// roots and its ranks.
pub proof fn lemma_forest_halve(
    parent: Seq<usize>,
    rep: Seq<usize>,
    rank: Seq<nat>,
    top: nat,
    cur: usize,
)
    requires
        forest_ok(parent, rep, rank, top),
        cur < parent.len(),
    ensures
        parent[cur as int] < parent.len(),
        parent[parent[cur as int] as int] < parent.len(),
        rep[parent[parent[cur as int] as int] as int] == rep[cur as int],
        forest_ok(parent.update(cur as int, parent[parent[cur as int] as int]), rep, rank, top),
        parent[cur as int] != cur
            ==> rank[cur as int] < rank[parent[parent[cur as int] as int] as int],
{
    let up = parent[cur as int];
    assert(node_ok(parent, rep, rank, top, cur as int));
    assert(node_ok(parent, rep, rank, top, up as int));
    let parent2 = parent.update(cur as int, parent[up as int]);
    assert forall|i: int| 0 <= i < parent2.len() implies #[trigger] node_ok(
        parent2,
        rep,
        rank,
        top,
        i,
    ) by {
        assert(node_ok(parent, rep, rank, top, i));
        assert(node_ok(parent, rep, rank, top, rep[i] as int));
        assert(node_ok(parent, rep, rank, top, parent[i] as int));
    }
}

} // verus!
