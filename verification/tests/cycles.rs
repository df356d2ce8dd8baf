use cargo_arc::diagnose::cycles::RepresentativeCycles;
use cargo_arc::layout::cycles::MinimalCycles;
use petgraph::graph::{DiGraph, NodeIndex};

/// Build a test digraph with `n` nodes and the given directed edges.
fn digraph(node_count: usize, edges: &[(usize, usize)]) -> DiGraph<NodeIndex, ()> {
    let mut g = DiGraph::new();
    (0..node_count).for_each(|i| {
        g.add_node(NodeIndex::new(i));
    });
    g.extend_with_edges(
        edges
            .iter()
            .map(|&(from, to)| (NodeIndex::new(from), NodeIndex::new(to))),
    );
    g
}

#[test]
fn minimal_no_cycles() {
    let graph = digraph(3, &[(0, 1), (1, 2)]);
    let a = graph.minimal_cycles();
    assert!(a.cycles.is_empty());
    assert!(a.edge_cycles.is_empty());
}

#[test]
fn minimal_direct_cycle() {
    let graph = digraph(2, &[(0, 1), (1, 0)]);
    let a = graph.minimal_cycles();
    assert_eq!(a.cycles.len(), 1);
    assert_eq!(a.cycles[0].path.len(), 2);
}

#[test]
fn minimal_transitive_cycle() {
    let graph = digraph(3, &[(0, 1), (1, 2), (2, 0)]);
    let a = graph.minimal_cycles();
    assert_eq!(a.cycles.len(), 1);
    assert_eq!(a.cycles[0].path.len(), 3);
}

#[test]
fn minimal_overlapping_cycles() {
    // 0<->1 and 0<->2 — one SCC, two disjoint minimal cycles.
    let graph = digraph(3, &[(0, 1), (1, 0), (0, 2), (2, 0)]);
    let a = graph.minimal_cycles();
    assert_eq!(a.cycles.len(), 2);
    for c in &a.cycles {
        assert_eq!(c.path.len(), 2);
    }
}

#[test]
fn minimal_independent_cycles() {
    let graph = digraph(4, &[(0, 1), (1, 0), (2, 3), (3, 2)]);
    let a = graph.minimal_cycles();
    assert_eq!(a.cycles.len(), 2);
}

#[test]
fn minimal_prefers_shortcut_over_triangle() {
    // Triangle 0->1->2->0 plus a 2-cycle 0<->2. The minimal cycle carrying
    // edge 0->2 must be the length-2 loop, not the triangle.
    let graph = digraph(3, &[(0, 1), (1, 2), (2, 0), (0, 2)]);
    let a = graph.minimal_cycles();
    let idxs = a.edge_cycles.get((0, 2)).unwrap();
    assert!(
        idxs.iter().any(|&i| a.cycles[i].path.len() == 2),
        "edge 0->2 should lie on a length-2 minimal cycle"
    );
}

#[test]
fn minimal_shared_edge_lists_all_cycles() {
    // Two triangles sharing directed edge 0->1:
    //   0->1->2->0  and  0->1->3->0
    let graph = digraph(4, &[(0, 1), (1, 2), (2, 0), (1, 3), (3, 0)]);
    let a = graph.minimal_cycles();
    assert_eq!(a.cycles.len(), 2);
    assert_eq!(a.edge_cycles.get((0, 1)).unwrap().len(), 2);
}

#[test]
fn minimal_covers_every_scc_edge() {
    let graph = digraph(3, &[(0, 1), (1, 2), (2, 0)]);
    let a = graph.minimal_cycles();
    for e in [(0, 1), (1, 2), (2, 0)] {
        assert!(a.edge_cycles.contains_key(e), "edge {e:?} not covered");
    }
}

#[test]
fn minimal_is_deterministic() {
    let edges = &[(0, 1), (1, 2), (2, 0), (1, 3), (3, 0)];
    let a = digraph(4, edges).minimal_cycles();
    let b = digraph(4, edges).minimal_cycles();
    assert_eq!(a.cycles, b.cycles);
}

#[test]
fn minimal_cycles_start_at_their_smallest_node_and_keep_direction() {
    let graph = digraph(3, &[(2, 0), (0, 1), (1, 2)]);
    let a = graph.minimal_cycles();
    assert_eq!(a.cycles.len(), 1);
    assert_eq!(a.cycles[0].path, vec![0, 1, 2]);
    assert_eq!(a.cycles[0].edges(), vec![(0, 1), (1, 2), (2, 0)]);
}

#[test]
fn minimal_cycles_are_given_in_node_weights() {
    // Local nodes 0 and 1 stand for nodes 7 and 4 of an outer graph.
    let mut g: DiGraph<NodeIndex, ()> = DiGraph::new();
    let a = g.add_node(NodeIndex::new(7));
    let b = g.add_node(NodeIndex::new(4));
    g.add_edge(a, b, ());
    g.add_edge(b, a, ());
    let analysis = g.minimal_cycles();
    assert_eq!(analysis.cycles[0].path, vec![4, 7]);
    assert!(analysis.edge_cycles.contains_key((7, 4)));
    assert!(analysis.edge_cycles.contains_key((4, 7)));
}

#[test]
fn a_self_loop_is_no_cycle() {
    let graph = digraph(2, &[(0, 0), (0, 1)]);
    let a = graph.minimal_cycles();
    assert!(a.cycles.is_empty());
}

#[test]
fn representative_no_cycles() {
    let graph = digraph(3, &[(0, 1), (1, 2)]);
    let a = graph.representative_cycles();
    assert!(a.cycles.is_empty());
    assert!(a.edge_cycles.is_empty());
    assert!(a.node_scc.is_empty());
}

#[test]
fn representative_direct_cycle() {
    let graph = digraph(2, &[(0, 1), (1, 0)]);
    let a = graph.representative_cycles();
    assert_eq!(a.cycles.len(), 1);
    assert_eq!(a.cycles[0].nodes.len(), 2);
}

#[test]
fn representative_transitive_cycle() {
    let graph = digraph(3, &[(0, 1), (1, 2), (2, 0)]);
    let a = graph.representative_cycles();
    assert_eq!(a.cycles.len(), 1);
    assert_eq!(a.cycles[0].nodes.len(), 3);
}

#[test]
fn representative_overlapping_cycles() {
    // 0<->1 and 0<->2 — one SCC, two disjoint representative cycles.
    let graph = digraph(3, &[(0, 1), (1, 0), (0, 2), (2, 0)]);
    let a = graph.representative_cycles();
    assert_eq!(a.cycles.len(), 2);
    for c in &a.cycles {
        assert_eq!(c.nodes.len(), 2);
    }
    // All three nodes belong to the same SCC.
    let scc = a.node_scc[&0];
    assert_eq!(a.node_scc[&1], scc);
    assert_eq!(a.node_scc[&2], scc);
}

#[test]
fn representative_independent_cycles() {
    let graph = digraph(4, &[(0, 1), (1, 0), (2, 3), (3, 2)]);
    let a = graph.representative_cycles();
    assert_eq!(a.cycles.len(), 2);
    // Two disjoint SCCs {0,1} and {2,3} get distinct ids; each pair shares one.
    assert_eq!(a.node_scc[&0], a.node_scc[&1]);
    assert_eq!(a.node_scc[&2], a.node_scc[&3]);
    assert_ne!(a.node_scc[&0], a.node_scc[&2]);
}

#[test]
fn representative_prefers_shortcut_over_triangle() {
    // Triangle 0->1->2->0 plus a 2-cycle 0<->2. The representative cycle carrying
    // edge 0->2 must be the length-2 loop, not the triangle.
    let graph = digraph(3, &[(0, 1), (1, 2), (2, 0), (0, 2)]);
    let a = graph.representative_cycles();
    let idxs = a.edge_cycles.get((0, 2)).unwrap();
    assert!(
        idxs.iter().any(|&i| a.cycles[i].nodes.len() == 2),
        "edge 0->2 should lie on a length-2 representative cycle"
    );
}

#[test]
fn representative_shared_edge_lists_all_cycles() {
    // Two triangles sharing directed edge 0->1:
    //   0->1->2->0  and  0->1->3->0
    let graph = digraph(4, &[(0, 1), (1, 2), (2, 0), (1, 3), (3, 0)]);
    let a = graph.representative_cycles();
    assert_eq!(a.cycles.len(), 2);
    assert_eq!(a.edge_cycles.get((0, 1)).unwrap().len(), 2);
}

#[test]
fn representative_covers_every_scc_edge() {
    let graph = digraph(3, &[(0, 1), (1, 2), (2, 0)]);
    let a = graph.representative_cycles();
    for e in [(0, 1), (1, 2), (2, 0)] {
        assert!(a.edge_cycles.contains_key(e), "edge {e:?} not covered");
    }
}

#[test]
fn retain_cycles_keeping_all_leaves_analysis_unchanged() {
    let graph = digraph(4, &[(0, 1), (1, 2), (2, 0), (1, 3), (3, 0)]);
    let mut a = graph.representative_cycles();
    let before_cycles = a.cycles.clone();
    let before_edge_cycles = a.edge_cycles.clone();
    let before_node_scc = a.node_scc.clone();

    a.retain_cycles(|_| true);

    assert_eq!(a.cycles, before_cycles);
    assert_eq!(a.edge_cycles, before_edge_cycles);
    assert_eq!(a.node_scc, before_node_scc);
}

#[test]
fn retain_cycles_drops_filtered_cycle_and_remaps_survivors() {
    // Two disjoint 2-cycles sharing node 0: keep only the one through node 3.
    let graph = digraph(4, &[(0, 1), (1, 0), (0, 3), (3, 0)]);
    let mut a = graph.representative_cycles();
    assert_eq!(a.cycles.len(), 2);
    let kept_nodes = a
        .cycles
        .iter()
        .find(|c| c.nodes.contains(&3))
        .unwrap()
        .nodes
        .clone();

    a.retain_cycles(|c| c.nodes.contains(&3));

    assert_eq!(a.cycles.len(), 1);
    assert_eq!(a.cycles[0].nodes, kept_nodes);
    for (_, idxs) in &a.edge_cycles.entries {
        for &i in idxs {
            assert!(i < a.cycles.len(), "index {i} out of bounds");
            assert_eq!(a.cycles[i].nodes, kept_nodes);
        }
    }
}

#[test]
fn retain_cycles_drops_edge_that_only_carried_the_filtered_cycle() {
    let graph = digraph(4, &[(0, 1), (1, 0), (0, 3), (3, 0)]);
    let mut a = graph.representative_cycles();
    assert!(a.edge_cycles.contains_key((0, 1)));

    a.retain_cycles(|c| c.nodes.contains(&3));

    assert!(!a.edge_cycles.contains_key((0, 1)));
    assert!(!a.edge_cycles.contains_key((1, 0)));
}

#[test]
fn retain_cycles_dropping_all_clears_cycles_and_edge_cycles_but_keeps_node_scc() {
    let graph = digraph(2, &[(0, 1), (1, 0)]);
    let mut a = graph.representative_cycles();
    let before_node_scc = a.node_scc.clone();

    a.retain_cycles(|_| false);

    assert!(a.cycles.is_empty());
    assert!(a.edge_cycles.is_empty());
    assert_eq!(a.node_scc, before_node_scc);
}

#[test]
fn representative_is_deterministic() {
    let edges = &[(0, 1), (1, 2), (2, 0), (1, 3), (3, 0)];
    let a = digraph(4, edges).representative_cycles();
    let b = digraph(4, edges).representative_cycles();
    assert_eq!(a.cycles, b.cycles);
}

#[test]
fn node_outside_every_cycle_has_no_scc() {
    let graph = digraph(3, &[(0, 1), (1, 0), (1, 2)]);
    let a = graph.representative_cycles();
    assert!(a.node_scc.contains_key(&0));
    assert!(!a.node_scc.contains_key(&2));
}

#[test]
fn component_ids_do_not_depend_on_how_the_graph_was_built() {
    let fresh = digraph(3, &[(0, 2), (0, 1), (1, 0), (2, 0)]);
    let mut edited = digraph(3, &[(0, 2), (1, 2), (0, 1), (1, 0), (2, 0)]);
    let extra = edited.find_edge(NodeIndex::new(1), NodeIndex::new(2)).unwrap();
    edited.remove_edge(extra);
    for graph in [fresh, edited] {
        let a = graph.representative_cycles();
        assert_eq!(a.node_scc.len(), 3);
        assert_eq!(a.node_scc[&0], a.node_scc[&1]);
        assert_eq!(a.node_scc[&0], a.node_scc[&2]);
        assert!(a.cycles.iter().all(|c| c.nodes.len() == 2), "each edge's shortest cycle has two nodes");
    }
}
