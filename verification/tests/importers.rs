use cargo_arc::diagnose::importers::{ConsumerGroup, ConsumerLocality};
use cargo_arc::graph::{ArcGraph, Edge, Node, SourceLocation};
use cargo_arc::model::{EdgeContext, TestKind};

/// Build a module tree. `parents[i]` is the index (into the returned vec)
/// of module `i`'s parent module, or `usize::MAX` for a direct crate child;
/// a parent must be listed before its children. `deps` are
/// `(from, to, symbols)` production `ModuleDep` edges.
fn nested(names: &[&str], parents: &[usize], deps: &[(usize, usize, &[&str])]) -> (ArcGraph, Vec<usize>) {
    let mut g = ArcGraph::new();
    let crate_idx = g.add_node(Node::Crate { name: "app".into(), path: "/app".into() });
    let mut idx = Vec::with_capacity(names.len());
    for (i, name) in names.iter().enumerate() {
        let n = g.add_node(Node::Module { name: (*name).into(), crate_idx });
        let parent = if parents[i] == usize::MAX { crate_idx } else { idx[parents[i]] };
        g.add_edge(parent, n, Edge::Contains);
        idx.push(n);
    }
    for &(from, to, symbols) in deps {
        let locations = vec![SourceLocation {
            file: format!("src/{}.rs", names[from]),
            line: 1,
            symbols: symbols.iter().map(|s| (*s).to_owned()).collect(),
            module: String::new(),
            via_reexport: false,
        }];
        g.add_edge(idx[from], idx[to], Edge::ModuleDep { locations, context: EdgeContext::production() });
    }
    (g, idx)
}

/// Flat builder: every module is a direct crate child.
fn graph_with(modules: &[&str], deps: &[(usize, usize, &[&str])]) -> (ArcGraph, Vec<usize>) {
    nested(modules, &vec![usize::MAX; modules.len()], deps)
}

fn one_dep_graph(via_reexport: bool, context: EdgeContext) -> ArcGraph {
    let mut g = ArcGraph::new();
    let crate_idx = g.add_node(Node::Crate { name: "app".into(), path: "/app".into() });
    let model = g.add_node(Node::Module { name: "model".into(), crate_idx });
    let user = g.add_node(Node::Module { name: "user".into(), crate_idx });
    g.add_edge(crate_idx, model, Edge::Contains);
    g.add_edge(crate_idx, user, Edge::Contains);
    g.add_edge(
        user,
        model,
        Edge::ModuleDep {
            locations: vec![SourceLocation {
                file: "src/user.rs".into(),
                line: 1,
                symbols: vec!["Foo".to_owned()],
                module: String::new(),
                via_reexport,
            }],
            context,
        },
    );
    g
}

#[test]
fn no_module_deps_yields_no_providers() {
    let (g, _idx) = graph_with(&["model", "user"], &[]);
    assert!(g.importer_partition().providers.is_empty());
}

#[test]
fn single_consumer_locality() {
    let (g, idx) = graph_with(&["model", "user"], &[(1, 0, &["Foo"])]);
    let part = g.importer_partition();
    assert_eq!(part.providers.len(), 1);
    let provider = &part.providers[0];
    assert_eq!(provider.module, idx[0]);
    assert_eq!(
        provider.consumer_groups,
        vec![ConsumerGroup {
            consumers: vec![idx[1]],
            symbols: vec!["Foo".to_owned()],
            locality: ConsumerLocality::SingleConsumer(idx[1]),
        }]
    );
}

#[test]
fn symbols_bundle_by_identical_consumer_set() {
    let (g, idx) = graph_with(&["model", "user", "admin"], &[(1, 0, &["Foo", "Bar"]), (2, 0, &["Baz"])]);
    let part = g.importer_partition();
    let provider = &part.providers[0];
    assert_eq!(
        provider.consumer_groups,
        vec![
            ConsumerGroup {
                consumers: vec![idx[1]],
                symbols: vec!["Bar".to_owned(), "Foo".to_owned()],
                locality: ConsumerLocality::SingleConsumer(idx[1]),
            },
            ConsumerGroup {
                consumers: vec![idx[2]],
                symbols: vec!["Baz".to_owned()],
                locality: ConsumerLocality::SingleConsumer(idx[2]),
            },
        ]
    );
}

#[test]
fn reexport_locations_are_ignored() {
    let g = one_dep_graph(true, EdgeContext::production());
    assert!(g.importer_partition().providers.is_empty());
}

#[test]
fn test_edges_are_ignored() {
    let g = one_dep_graph(false, EdgeContext::test(TestKind::Unit));
    assert!(g.importer_partition().providers.is_empty());
}

#[test]
fn common_ancestor_outside_provider_subtree() {
    let (g, idx) = nested(
        &["model", "analyze", "parser", "reexport"],
        &[usize::MAX, usize::MAX, 1, 1],
        &[(2, 0, &["Foo"]), (3, 0, &["Foo"])],
    );
    let part = g.importer_partition();
    let provider = &part.providers[0];
    assert_eq!(
        provider.consumer_groups,
        vec![ConsumerGroup {
            consumers: vec![idx[2], idx[3]],
            symbols: vec!["Foo".to_owned()],
            locality: ConsumerLocality::CommonAncestor(idx[1]),
        }]
    );
}

#[test]
fn no_common_module_ancestor_is_crate_wide() {
    let (g, _idx) = nested(
        &["model", "user", "admin"],
        &[usize::MAX, usize::MAX, usize::MAX],
        &[(1, 0, &["Foo"]), (2, 0, &["Foo"])],
    );
    let part = g.importer_partition();
    assert_eq!(part.providers[0].consumer_groups[0].locality, ConsumerLocality::CrateWide);
}

#[test]
fn ancestor_containing_provider_is_crate_wide() {
    let (g, _idx) = nested(&["core", "a", "b"], &[usize::MAX, 0, 0], &[(1, 0, &["Foo"]), (2, 0, &["Foo"])]);
    let part = g.importer_partition();
    assert_eq!(part.providers[0].consumer_groups[0].locality, ConsumerLocality::CrateWide);
}

// -- Further cases --

#[test]
fn providers_come_in_index_order_and_groups_by_consumer_list() {
    let (g, idx) = graph_with(
        &["a", "b", "c", "d"],
        &[(2, 1, &["X"]), (3, 1, &["Y"]), (2, 0, &["Z"]), (3, 1, &["X"])],
    );
    let part = g.importer_partition();
    let modules: Vec<usize> = part.providers.iter().map(|p| p.module).collect();
    assert_eq!(modules, vec![idx[0], idx[1]]);
    let groups = &part.providers[1].consumer_groups;
    assert_eq!(groups.len(), 2);
    assert_eq!(groups[0].consumers, vec![idx[2], idx[3]]);
    assert_eq!(groups[0].symbols, vec!["X".to_owned()]);
    assert_eq!(groups[1].consumers, vec![idx[3]]);
    assert_eq!(groups[1].symbols, vec!["Y".to_owned()]);
}
