use std::collections::HashSet;

use cargo_arc::graph::{ArcGraph, CutBias, Edge, Node, Reexports, SourceLocation};
use cargo_arc::layout::clusters::{check_analysis, ClusterReport, Cut};
use cargo_arc::layout::cycles::MinimalCycles;
use cargo_arc::model::EdgeContext;
use petgraph::graph::{DiGraph, NodeIndex};

fn locations(file: &str, count: usize, via_reexport: bool) -> Vec<SourceLocation> {
    (0..count)
        .map(|i| SourceLocation {
            file: file.into(),
            line: i + 1,
            symbols: vec![],
            module: String::new(),
            via_reexport,
        })
        .collect()
}

/// Single-crate graph: `modules` by name, production `ModuleDep` edges
/// `(from, to, ref_count)`. Returns the graph and the module node indices.
fn graph_with(modules: &[&str], deps: &[(usize, usize, usize)]) -> (ArcGraph, Vec<usize>) {
    let mut g = ArcGraph::new();
    let crate_idx = g.add_node(Node::Crate { name: "app".into(), path: "/app".into() });
    let idx: Vec<usize> = modules
        .iter()
        .map(|m| {
            let n = g.add_node(Node::Module { name: (*m).into(), crate_idx });
            g.add_edge(crate_idx, n, Edge::Contains);
            n
        })
        .collect();
    for &(from, to, refs) in deps {
        g.add_edge(
            idx[from],
            idx[to],
            Edge::ModuleDep {
                locations: locations(&format!("src/{}.rs", modules[from]), refs, false),
                context: EdgeContext::production(),
            },
        );
    }
    (g, idx)
}

fn report(g: &ArcGraph) -> ClusterReport {
    let analysis = g.production_subgraph(Reexports::Included).minimal_cycles();
    g.cluster_report(&analysis, true)
}

/// Assert that removing `cuts` leaves the cluster `nodes` acyclic.
fn assert_acyclic_after_cuts(g: &ArcGraph, nodes: &[usize], cuts: &[Cut]) {
    let node_set: HashSet<usize> = nodes.iter().copied().collect();
    let removed: HashSet<(usize, usize)> = cuts.iter().map(|c| (c.from, c.to)).collect();
    let mut left: DiGraph<usize, ()> = DiGraph::new();
    let ids: Vec<NodeIndex> = (0..g.node_count()).map(|i| left.add_node(i)).collect();
    for k in 0..g.edge_count() {
        let (a, b, e) = g.edge(k);
        if e.is_production_module_dep() && node_set.contains(&a) && node_set.contains(&b) && !removed.contains(&(a, b)) {
            left.add_edge(ids[a], ids[b], ());
        }
    }
    assert!(!petgraph::algo::is_cyclic_directed(&left), "cut-set did not break all cycles");
}

#[test]
fn acyclic_graph_yields_no_clusters() {
    let (g, _) = graph_with(&["a", "b", "c"], &[(0, 1, 1), (1, 2, 1)]);
    assert!(report(&g).clusters.is_empty());
}

#[test]
fn child_to_parent_edge_is_cut_even_with_more_refs() {
    let mut g = ArcGraph::new();
    let crate_idx = g.add_node(Node::Crate { name: "app".into(), path: "/app".into() });
    let a = g.add_node(Node::Module { name: "a".into(), crate_idx });
    let b = g.add_node(Node::Module { name: "b".into(), crate_idx });
    g.add_edge(crate_idx, a, Edge::Contains);
    g.add_edge(a, b, Edge::Contains);
    g.add_edge(a, b, Edge::ModuleDep { locations: locations("src/a.rs", 2, true), context: EdgeContext::production() });
    g.add_edge(b, a, Edge::ModuleDep { locations: locations("src/b.rs", 5, false), context: EdgeContext::production() });

    let r = report(&g);
    assert_eq!(r.clusters.len(), 1);
    let c = &r.clusters[0];
    assert_eq!(c.cycles.len(), 1);
    assert_eq!(c.cuts.len(), 1);
    let cut = &c.cuts[0];
    assert_eq!((cut.from, cut.to), (b, a));
    assert_eq!(cut.refs, 5);
    assert_acyclic_after_cuts(&g, &c.nodes, &c.cuts);
}

#[test]
fn reexport_child_to_parent_edge_is_not_preferentially_cut() {
    let mut g = ArcGraph::new();
    let crate_idx = g.add_node(Node::Crate { name: "app".into(), path: "/app".into() });
    let a = g.add_node(Node::Module { name: "a".into(), crate_idx });
    let b = g.add_node(Node::Module { name: "b".into(), crate_idx });
    let c = g.add_node(Node::Module { name: "c".into(), crate_idx });
    g.add_edge(crate_idx, a, Edge::Contains);
    g.add_edge(a, b, Edge::Contains);
    g.add_edge(crate_idx, c, Edge::Contains);
    g.add_edge(b, a, Edge::ModuleDep { locations: locations("src/b.rs", 1, true), context: EdgeContext::production() });
    g.add_edge(a, c, Edge::ModuleDep { locations: locations("src/a.rs", 3, false), context: EdgeContext::production() });
    g.add_edge(c, b, Edge::ModuleDep { locations: locations("src/c.rs", 5, false), context: EdgeContext::production() });

    let r = report(&g);
    assert_eq!(r.clusters.len(), 1);
    let clu = &r.clusters[0];
    assert_eq!(clu.cycles.len(), 1);
    assert_eq!(clu.cuts.len(), 1);
    let cut = &clu.cuts[0];
    assert_eq!((cut.from, cut.to), (a, c));
    assert_eq!(cut.refs, 3);
    assert_acyclic_after_cuts(&g, &clu.nodes, &clu.cuts);
}

#[test]
fn fewer_refs_wins_without_a_parent_child_relation() {
    let (g, idx) = graph_with(&["a", "b"], &[(0, 1, 2), (1, 0, 5)]);
    let r = report(&g);
    assert_eq!(r.clusters.len(), 1);
    let c = &r.clusters[0];
    assert_eq!(c.cycles.len(), 1);
    assert_eq!(c.cuts.len(), 1);
    let cut = &c.cuts[0];
    assert_eq!((cut.from, cut.to), (idx[0], idx[1]));
    assert_eq!(cut.refs, 2);
    assert_eq!(cut.breaks, 1);
    assert_acyclic_after_cuts(&g, &c.nodes, &c.cuts);
}

#[test]
fn shared_edge_is_ranked_by_traffic() {
    let (g, idx) = graph_with(
        &["m0", "m1", "m2", "m3"],
        &[(0, 1, 1), (1, 2, 1), (2, 0, 1), (1, 3, 1), (3, 0, 1)],
    );
    let r = report(&g);
    assert_eq!(r.clusters.len(), 1);
    let c = &r.clusters[0];
    assert_eq!(c.cycles.len(), 2);
    assert_eq!(c.cuts.len(), 1);
    let cut = &c.cuts[0];
    assert_eq!((cut.from, cut.to), (idx[0], idx[1]));
    assert_eq!(cut.breaks, 2);
    assert_acyclic_after_cuts(&g, &c.nodes, &c.cuts);
}

#[test]
fn two_disjoint_cycles_in_one_scc_need_two_cuts() {
    let (g, _) = graph_with(&["a", "b", "c"], &[(0, 1, 1), (1, 0, 1), (0, 2, 1), (2, 0, 1)]);
    let r = report(&g);
    assert_eq!(r.clusters.len(), 1);
    let c = &r.clusters[0];
    assert_eq!(c.nodes.len(), 3);
    assert_eq!(c.cycles.len(), 2);
    assert_eq!(c.cuts.len(), 2);
    assert_acyclic_after_cuts(&g, &c.nodes, &c.cuts);
}

#[test]
fn independent_sccs_form_separate_clusters() {
    let (g, _) = graph_with(&["a", "b", "c", "d"], &[(0, 1, 1), (1, 0, 1), (2, 3, 1), (3, 2, 1)]);
    let r = report(&g);
    assert_eq!(r.clusters.len(), 2);
    for c in &r.clusters {
        assert_eq!(c.cuts.len(), 1);
        assert_acyclic_after_cuts(&g, &c.nodes, &c.cuts);
    }
}

#[test]
fn clusters_sorted_by_cut_count_ascending() {
    let (g, _) = graph_with(
        &["a", "b", "c", "d", "e"],
        &[(0, 1, 1), (1, 0, 1), (2, 3, 1), (3, 2, 1), (2, 4, 1), (4, 2, 1)],
    );
    let r = report(&g);
    assert_eq!(r.clusters.len(), 2);
    assert_eq!(r.clusters[0].cuts.len(), 1);
    assert_eq!(r.clusters[1].cuts.len(), 2);
}

#[test]
fn report_is_deterministic() {
    let deps = &[(0, 1, 3), (1, 2, 1), (2, 0, 2), (1, 3, 1), (3, 0, 4)];
    let (g1, _) = graph_with(&["m0", "m1", "m2", "m3"], deps);
    let (g2, _) = graph_with(&["m0", "m1", "m2", "m3"], deps);
    let a = report(&g1);
    let b = report(&g2);
    assert_eq!(a.clusters.len(), b.clusters.len());
    for (ca, cb) in a.clusters.iter().zip(&b.clusters) {
        let ka: Vec<_> = ca.cuts.iter().map(|c| (c.from, c.to, c.breaks, c.refs)).collect();
        let kb: Vec<_> = cb.cuts.iter().map(|c| (c.from, c.to, c.breaks, c.refs)).collect();
        assert_eq!(ka, kb);
    }
}

// -- Further cases --

#[test]
fn a_cluster_records_its_crate_nodes_and_cycles() {
    let (g, idx) = graph_with(&["a", "b", "c"], &[(0, 1, 1), (1, 0, 1), (1, 2, 1)]);
    let r = report(&g);
    assert_eq!(r.clusters.len(), 1);
    let c = &r.clusters[0];
    assert_eq!(c.crate_idx, 0);
    let mut nodes = c.nodes.clone();
    nodes.sort();
    assert_eq!(nodes, vec![idx[0], idx[1]]);
    assert_eq!(c.cycles, vec![0]);
}

#[test]
fn excluded_reexports_leave_a_reexport_cycle_unreported() {
    let mut g = ArcGraph::new();
    let crate_idx = g.add_node(Node::Crate { name: "app".into(), path: "/app".into() });
    let a = g.add_node(Node::Module { name: "a".into(), crate_idx });
    let b = g.add_node(Node::Module { name: "b".into(), crate_idx });
    g.add_edge(crate_idx, a, Edge::Contains);
    g.add_edge(crate_idx, b, Edge::Contains);
    g.add_edge(a, b, Edge::ModuleDep { locations: locations("src/a.rs", 1, true), context: EdgeContext::production() });
    g.add_edge(b, a, Edge::ModuleDep { locations: locations("src/b.rs", 1, false), context: EdgeContext::production() });
    let analysis = g.production_subgraph(Reexports::Excluded).minimal_cycles();
    assert!(g.cluster_report(&analysis, false).clusters.is_empty());
}

#[test]
fn cut_bias_reads_the_module_tree() {
    let mut g = ArcGraph::new();
    let crate_idx = g.add_node(Node::Crate { name: "app".into(), path: "/app".into() });
    let a = g.add_node(Node::Module { name: "a".into(), crate_idx });
    let b = g.add_node(Node::Module { name: "b".into(), crate_idx });
    let c = g.add_node(Node::Module { name: "c".into(), crate_idx });
    g.add_edge(crate_idx, a, Edge::Contains);
    g.add_edge(a, b, Edge::Contains);
    g.add_edge(crate_idx, c, Edge::Contains);
    g.add_edge(b, a, Edge::ModuleDep { locations: locations("src/b.rs", 2, false), context: EdgeContext::production() });
    assert_eq!(g.cut_bias((a, b)), CutBias::Skeletal);
    assert_eq!(g.cut_bias((b, a)), CutBias::Preferred);
    assert_eq!(g.cut_bias((a, c)), CutBias::Neutral);
    assert_eq!(g.edge_refs(b, a), 2);
    assert_eq!(g.edge_refs(a, c), 0);
}

#[test]
fn containment_cycles_and_bad_indexes_are_refused_before_reporting() {
    let (g, idx) = graph_with(&["a", "b"], &[(0, 1, 1), (1, 0, 1)]);
    assert!(g.containment_is_acyclic());
    let analysis = g.production_subgraph(Reexports::Included).minimal_cycles();
    assert!(check_analysis(&analysis, g.node_count()));
    let checked = g.checked_cluster_report(&analysis, true).unwrap();
    assert_eq!(checked.clusters.len(), report(&g).clusters.len());
    assert!(!check_analysis(&analysis, 1), "arcs past the nodes");

    let mut looped = g;
    looped.add_edge(idx[1], idx[0], Edge::Contains);
    looped.add_edge(idx[0], idx[1], Edge::Contains);
    assert!(!looped.containment_is_acyclic());
    assert!(looped.checked_cluster_report(&analysis, true).is_none());
}
