use algs::algorithms::directed_graph::{
    BFSPaths, DFSPaths, DGraph, DirectedCycle, KosarajuSharirSCC, TopologicalSort,
};
use algs::algorithms::linked_list_queue::LinkedQueue;
use algs::algorithms::linked_list_stack::LinkedStack;
use algs::algorithms::undirected_graph::{
    BFSPaths as UBFSPaths, ConnectedComponents, DFSPaths as UDFSPaths, UGraph,
};

fn graph(n: usize, edges: &[(usize, usize)]) -> DGraph {
    let mut g = DGraph::new(n);
    for &(v, w) in edges {
        g.add_edge(v, w);
    }
    g
}

fn items(stack: &LinkedStack<usize>) -> Vec<usize> {
    let mut out = Vec::new();
    let mut it = stack.iter();
    while let Some(v) = it.next() {
        out.push(*v);
    }
    out
}

fn listed(queue: &LinkedQueue<usize>) -> Vec<usize> {
    let mut out = Vec::new();
    let mut it = queue.iter();
    while let Some(v) = it.next() {
        out.push(*v);
    }
    out
}

fn has_edge(edges: &[(usize, usize)], v: usize, w: usize) -> bool {
    edges.iter().any(|&(a, b)| a == v && b == w)
}

/// The fewest edges on a walk from `v` to each vertex, found by trying
/// every walk of up to `n` edges.
fn distances(n: usize, edges: &[(usize, usize)], v: usize) -> Vec<Option<usize>> {
    let mut dist = vec![None; n];
    dist[v] = Some(0);
    for round in 1..=n {
        let before = dist.clone();
        for &(a, b) in edges {
            if before[a].is_some() && before[a].unwrap() + 1 == round && dist[b].is_none() {
                dist[b] = Some(round);
            }
        }
    }
    dist
}

fn reaches(n: usize, edges: &[(usize, usize)], v: usize, w: usize) -> bool {
    distances(n, edges, v)[w].is_some()
}

fn tangled() -> (usize, Vec<(usize, usize)>) {
    (
        13,
        vec![
            (4, 2),
            (2, 3),
            (3, 2),
            (6, 0),
            (0, 1),
            (2, 0),
            (11, 12),
            (12, 9),
            (9, 10),
            (9, 11),
            (7, 9),
            (10, 12),
            (11, 4),
            (4, 3),
            (3, 5),
            (6, 8),
            (8, 6),
            (5, 4),
            (0, 5),
            (6, 4),
            (6, 9),
            (7, 6),
        ],
    )
}

#[test]
fn adjacency_lists_read_in_the_order_in_which_the_edges_were_added() {
    let g = graph(4, &[(0, 1), (0, 2), (0, 3), (2, 2), (0, 1)]);

    assert_eq!(listed(g.get_adj_edges(0)), vec![1, 2, 3, 1]);
    assert_eq!(listed(g.get_adj_edges(1)), Vec::<usize>::new());
    assert_eq!(listed(g.get_adj_edges(2)), vec![2]);
}

#[test]
fn add_edge_puts_the_edge_at_the_end_of_the_list() {
    let mut g = DGraph::new(3);

    g.add_edge(0, 2);
    assert_eq!(listed(g.get_adj_edges(0)), vec![2]);
    g.add_edge(0, 1);
    assert_eq!(listed(g.get_adj_edges(0)), vec![2, 1]);
    g.add_edge(0, 2);
    assert_eq!(listed(g.get_adj_edges(0)), vec![2, 1, 2]);
    g.add_edge(0, 0);
    assert_eq!(listed(g.get_adj_edges(0)), vec![2, 1, 2, 0]);
    assert_eq!(listed(g.get_adj_edges(1)), Vec::<usize>::new());
    assert_eq!(listed(g.get_adj_edges(2)), Vec::<usize>::new());
}

#[test]
fn get_adj_edges_mut_gives_the_list_itself() {
    let mut g = graph(3, &[(0, 1)]);

    g.get_adj_edges_mut(0).enqueue(2);

    assert_eq!(listed(g.get_adj_edges(0)), vec![1, 2]);
    assert!(DFSPaths::new(&g, 0).has_path_to(2));
}

#[test]
fn reverse_turns_every_edge_round_and_lists_the_smaller_tails_first() {
    let g = graph(4, &[(0, 3), (2, 3), (1, 3), (2, 3), (3, 0)]);

    let r = g.reverse();

    assert_eq!(listed(r.get_adj_edges(3)), vec![0, 1, 2, 2]);
    assert_eq!(listed(r.get_adj_edges(0)), vec![3]);
    assert_eq!(listed(r.get_adj_edges(1)), Vec::<usize>::new());
    assert_eq!(listed(g.get_adj_edges(3)), vec![0]);
}

#[test]
fn reversing_twice_gives_back_the_edges() {
    let (n, edges) = tangled();
    let g = graph(n, &edges);

    let rr = g.reverse().reverse();

    for v in 0..n {
        for w in 0..n {
            let there = listed(rr.get_adj_edges(v)).contains(&w);
            assert_eq!(there, has_edge(&edges, v, w));
        }
    }
}

#[test]
fn a_depth_first_search_reaches_its_origin_and_what_the_origin_reaches() {
    let (n, edges) = tangled();
    let g = graph(n, &edges);

    for v in 0..n {
        let paths = DFSPaths::new(&g, v);
        assert!(paths.has_path_to(v));
        for w in 0..n {
            assert_eq!(paths.has_path_to(w), reaches(n, &edges, v, w));
        }
    }
}

#[test]
fn a_depth_first_path_is_a_walk_from_the_origin() {
    let (n, edges) = tangled();
    let g = graph(n, &edges);

    for v in 0..n {
        let paths = DFSPaths::new(&g, v);
        for w in 0..n {
            match paths.path_to(w) {
                None => assert!(!paths.has_path_to(w)),
                Some(path) => {
                    let walk = items(&path);
                    assert_eq!(walk[0], v);
                    assert_eq!(walk[walk.len() - 1], w);
                    for k in 0..walk.len() - 1 {
                        assert!(has_edge(&edges, walk[k], walk[k + 1]));
                    }
                    for a in 0..walk.len() {
                        for b in a + 1..walk.len() {
                            assert!(walk[a] != walk[b]);
                        }
                    }
                }
            }
        }
    }
}

#[test]
fn the_path_to_the_origin_is_the_origin_alone() {
    let g = graph(3, &[(0, 1), (1, 0)]);

    assert_eq!(items(&DFSPaths::new(&g, 0).path_to(0).unwrap()), vec![0]);
    assert_eq!(items(&BFSPaths::new(&g, 0).path_to(0).unwrap()), vec![0]);
    assert_eq!(items(&DFSPaths::new(&g, 0).path_to(1).unwrap()), vec![0, 1]);
    assert!(DFSPaths::new(&g, 0).path_to(2).is_none());
    assert!(BFSPaths::new(&g, 0).path_to(2).is_none());
}

#[test]
fn a_depth_first_search_follows_the_edge_added_last_first() {
    let g = graph(4, &[(0, 1), (1, 2), (2, 3), (0, 3)]);

    let paths = DFSPaths::new(&g, 0);

    assert_eq!(items(&paths.path_to(3).unwrap()), vec![0, 3]);
    assert_eq!(items(&paths.path_to(2).unwrap()), vec![0, 1, 2]);
}

#[test]
fn the_path_of_an_undirected_search_leaves_out_the_vertex_asked_for() {
    let mut g = UGraph::new(4);
    g.add_edge(0, 1);
    g.add_edge(1, 2);

    let depth = UDFSPaths::new(&g, 0);
    let breadth = UBFSPaths::new(&g, 0);

    assert_eq!(items(&depth.path_to(2).unwrap()), vec![0, 1]);
    assert_eq!(items(&breadth.path_to(2).unwrap()), vec![0, 1]);
    assert!(depth.path_to(0).unwrap().is_empty());
    assert!(breadth.path_to(0).unwrap().is_empty());
    assert!(depth.path_to(3).is_none());
}

#[test]
fn a_breadth_first_path_has_the_fewest_edges() {
    let (n, edges) = tangled();
    let g = graph(n, &edges);

    for v in 0..n {
        let paths = BFSPaths::new(&g, v);
        let dist = distances(n, &edges, v);
        for w in 0..n {
            assert_eq!(paths.has_path_to(w), dist[w].is_some());
            match paths.path_to(w) {
                None => assert!(dist[w].is_none()),
                Some(path) => {
                    let walk = items(&path);
                    assert_eq!(Some(walk.len() - 1), dist[w]);
                    assert_eq!(walk[walk.len() - 1], w);
                    assert_eq!(walk[0], v);
                    for k in 0..walk.len() - 1 {
                        assert!(has_edge(&edges, walk[k], walk[k + 1]));
                    }
                }
            }
        }
    }
}

#[test]
fn a_breadth_first_search_takes_the_edge_added_first_among_equals() {
    let g = graph(4, &[(0, 1), (0, 2), (1, 3), (2, 3)]);

    let paths = BFSPaths::new(&g, 0);

    assert_eq!(items(&paths.path_to(3).unwrap()), vec![0, 1, 3]);
}

#[test]
fn a_breadth_first_path_takes_the_one_edge_where_there_is_one() {
    let g = graph(4, &[(0, 1), (1, 2), (2, 3), (0, 3)]);

    let paths = BFSPaths::new(&g, 0);

    assert_eq!(items(&paths.path_to(3).unwrap()), vec![0, 3]);
    assert_eq!(items(&paths.path_to(2).unwrap()), vec![0, 1, 2]);
}

#[test]
fn vertices_without_a_walk_from_the_origin_are_not_reached() {
    let g = graph(9, &[(0, 1), (1, 2), (2, 3), (3, 4), (4, 5), (5, 6), (6, 0)]);

    let paths = DFSPaths::new(&g, 0);

    assert!(paths.has_path_to(6));
    assert!(!paths.has_path_to(7));
    assert!(!paths.has_path_to(8));
    assert!(paths.path_to(8).is_none());
    assert!(!BFSPaths::new(&g, 0).has_path_to(8));
}

#[test]
fn the_reverse_postorder_of_the_example_graph() {
    let g = graph(
        7,
        &[
            (0, 5),
            (0, 2),
            (0, 1),
            (3, 6),
            (3, 5),
            (3, 4),
            (5, 2),
            (6, 4),
            (6, 0),
            (3, 2),
            (1, 4),
        ],
    );

    let ts = TopologicalSort::new(&g);

    assert_eq!(items(ts.reverse_post()), vec![3, 6, 0, 5, 2, 1, 4]);
}

#[test]
fn the_reverse_postorder_of_a_graph_without_cycles_follows_the_edges() {
    let edges = vec![(5, 3), (5, 1), (3, 0), (1, 0), (4, 1), (4, 2), (2, 0), (7, 6)];
    let g = graph(8, &edges);

    let order = items(TopologicalSort::new(&g).reverse_post());

    assert_eq!(order.len(), 8);
    for &(v, w) in &edges {
        let a = order.iter().position(|&x| x == v).unwrap();
        let b = order.iter().position(|&x| x == w).unwrap();
        assert!(a < b);
    }
}

#[test]
fn the_reverse_postorder_of_a_graph_with_a_cycle_lists_every_vertex_once() {
    let (n, edges) = tangled();
    let g = graph(n, &edges);

    let mut order = items(TopologicalSort::new(&g).reverse_post());

    order.sort();
    assert_eq!(order, (0..n).collect::<Vec<usize>>());
}

#[test]
fn a_cycle_is_found_exactly_in_the_graphs_that_have_one() {
    // every graph over three vertices, self-loops included
    let pairs: Vec<(usize, usize)> = (0..3).flat_map(|v| (0..3).map(move |w| (v, w))).collect();
    for mask in 0u32..(1 << 9) {
        let edges: Vec<(usize, usize)> =
            (0..9).filter(|k| mask & (1 << k) != 0).map(|k| pairs[k]).collect();
        let g = graph(3, &edges);

        let cyclic = (0..3).any(|v| edges.iter().any(|&(a, b)| a == v && reaches(3, &edges, b, v)));
        let dc = DirectedCycle::new(&g);

        assert_eq!(dc.has_cycle(), cyclic);
        let cycle = items(dc.cycle());
        assert_eq!(cycle.is_empty(), !cyclic);
        for k in 0..cycle.len() {
            assert!(has_edge(&edges, cycle[k], cycle[(k + 1) % cycle.len()]));
        }
        for a in 0..cycle.len() {
            for b in a + 1..cycle.len() {
                assert!(cycle[a] != cycle[b]);
            }
        }
    }
}

#[test]
fn a_cycle_of_three_vertices() {
    let g = graph(3, &[(0, 1), (1, 2), (2, 0)]);

    let dc = DirectedCycle::new(&g);

    assert!(dc.has_cycle());
    let cycle = items(dc.cycle());
    assert!(cycle == vec![0, 1, 2] || cycle == vec![1, 2, 0] || cycle == vec![2, 0, 1]);
    assert_eq!(KosarajuSharirSCC::new(&g).count, 1);
}

#[test]
fn an_edge_from_a_vertex_to_itself_is_a_cycle_of_one_vertex() {
    let g = graph(3, &[(0, 1), (1, 1), (1, 2)]);

    let dc = DirectedCycle::new(&g);

    assert!(dc.has_cycle());
    assert_eq!(items(dc.cycle()), vec![1]);

    let alone = graph(1, &[(0, 0)]);
    assert_eq!(items(DirectedCycle::new(&alone).cycle()), vec![0]);
}

#[test]
fn edges_added_twice_are_followed_twice_and_make_no_cycle() {
    let g = graph(3, &[(0, 1), (0, 1), (1, 2), (1, 2)]);

    assert!(!DirectedCycle::new(&g).has_cycle());
    assert!(DFSPaths::new(&g, 0).has_path_to(2));
    assert_eq!(items(TopologicalSort::new(&g).reverse_post()), vec![0, 1, 2]);
    assert_eq!(KosarajuSharirSCC::new(&g).count, 3);
}

#[test]
fn strong_connection_is_mutual_reach_and_an_equivalence() {
    let (n, edges) = tangled();
    let g = graph(n, &edges);

    let scc = KosarajuSharirSCC::new(&g);

    assert_eq!(scc.count, 5);
    assert_eq!(scc.count(), 5);
    for v in 0..n {
        assert!(scc.id(v).unwrap() < scc.count);
        assert!(scc.strongly_connected(v, v));
        for w in 0..n {
            let mutual = reaches(n, &edges, v, w) && reaches(n, &edges, w, v);
            assert_eq!(scc.strongly_connected(v, w), mutual);
            assert_eq!(scc.strongly_connected(v, w), scc.strongly_connected(w, v));
            assert_eq!(scc.strongly_connected(v, w), scc.id(v) == scc.id(w));
            for x in 0..n {
                if scc.strongly_connected(v, w) && scc.strongly_connected(w, x) {
                    assert!(scc.strongly_connected(v, x));
                }
            }
        }
    }
    for label in 0..scc.count {
        assert!((0..n).any(|v| scc.id(v) == Some(label)));
    }
}

#[test]
fn graphs_without_vertices_or_edges() {
    let empty = graph(0, &[]);
    assert!(items(TopologicalSort::new(&empty).reverse_post()).is_empty());
    assert!(!DirectedCycle::new(&empty).has_cycle());
    assert_eq!(KosarajuSharirSCC::new(&empty).count, 0);

    let bare = graph(3, &[]);
    assert_eq!(items(TopologicalSort::new(&bare).reverse_post()), vec![2, 1, 0]);
    assert!(!DirectedCycle::new(&bare).has_cycle());
    assert_eq!(KosarajuSharirSCC::new(&bare).count, 3);
    assert!(DFSPaths::new(&bare, 1).has_path_to(1));
    assert!(!DFSPaths::new(&bare, 1).has_path_to(0));
}

#[test]
fn connected_components_are_labelled_in_the_order_of_their_smallest_vertex() {
    let mut g = UGraph::new(7);
    g.add_edge(5, 6);
    g.add_edge(1, 3);
    g.add_edge(3, 4);

    let cc = ConnectedComponents::new(&g);

    assert_eq!(cc.count, 4);
    assert_eq!(cc.count(), 4);
    assert_eq!(cc.id(0), Some(0));
    assert_eq!(cc.id(1), Some(1));
    assert_eq!(cc.id(3), Some(1));
    assert_eq!(cc.id(4), Some(1));
    assert_eq!(cc.id(2), Some(2));
    assert_eq!(cc.id(5), Some(3));
    assert_eq!(cc.id(6), Some(3));
}

#[test]
fn an_undirected_edge_stands_in_the_lists_of_both_ends() {
    let mut g = UGraph::new(3);
    g.add_edge(0, 1);
    g.add_edge(2, 2);

    assert_eq!(items(g.get_adj_edges(0)), vec![1]);
    assert_eq!(items(g.get_adj_edges(1)), vec![0]);
    assert_eq!(items(g.get_adj_edges(2)), vec![2, 2]);
    g.get_adj_edges_mut(1).push(2);
    assert_eq!(items(g.get_adj_edges(1)), vec![2, 0]);
}
