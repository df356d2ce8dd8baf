use cargo_arc::analyze::externals::{
    DependencyKind, ExternalCrateInfo, ExternalDep, ExternalsResult, WorkspaceExternalDep,
};
use cargo_arc::collections::StrMap;
use cargo_arc::graph::limits::graph_bounds;
use cargo_arc::graph::{ArcGraph, Edge, Node, Reexports, SourceLocation};
use cargo_arc::model::{CrateInfo, DependencyRef, EdgeContext, ModuleInfo, ModuleTree, TestKind};

// -- Construction helpers --

fn crate_(name: &str) -> CrateInfo {
    let path = format!("/path/to/{name}");
    CrateInfo {
        name: name.into(),
        workspace_root: "/path/to".into(),
        target_roots: vec![format!("{path}/src/lib.rs")],
        manifest: format!("{path}/Cargo.toml"),
        path,
        dependencies: vec![],
        dev_dependencies: vec![],
    }
}

fn crate_with_deps(name: &str, deps: &[&str]) -> CrateInfo {
    CrateInfo {
        dependencies: deps.iter().map(|&s| s.into()).collect(),
        ..crate_(name)
    }
}

fn module(name: &str, full_path: &str) -> ModuleInfo {
    ModuleInfo {
        name: name.into(),
        full_path: full_path.into(),
        children: vec![],
        dependencies: vec![],
    }
}

fn dep(target_crate: &str, target_module: &str, file: &str, line: usize) -> DependencyRef {
    DependencyRef {
        target_crate: target_crate.into(),
        target_module: target_module.into(),
        target_item: None,
        source_file: file.into(),
        line,
        context: EdgeContext::production(),
        via_reexport: false,
        uses: vec![],
    }
}

fn reexport_dep(target_crate: &str, target_module: &str, file: &str, line: usize) -> DependencyRef {
    DependencyRef {
        via_reexport: true,
        ..dep(target_crate, target_module, file, line)
    }
}

fn tree(root: ModuleInfo) -> ModuleTree {
    ModuleTree { root }
}

// -- Edge-query helpers --

fn count_edges(graph: &ArcGraph) -> (usize, usize, usize) {
    (0..graph.edge_count()).fold((0, 0, 0), |(cd, md, c), k| match graph.edge(k).2 {
        Edge::CrateDep { .. } => (cd + 1, md, c),
        Edge::ModuleDep { .. } => (cd, md + 1, c),
        Edge::Contains => (cd, md, c + 1),
        Edge::DevDep => (cd, md, c),
    })
}

fn find_module_dep<'a>(
    graph: &'a ArcGraph,
    from_name: &str,
    to_name: &str,
) -> Option<(&'a EdgeContext, &'a [SourceLocation])> {
    (0..graph.edge_count()).find_map(|k| {
        let (a, b, e) = graph.edge(k);
        match e {
            Edge::ModuleDep { context, locations } => {
                if graph.node(a).name() == from_name && graph.node(b).name() == to_name {
                    Some((context, locations.as_slice()))
                } else {
                    None
                }
            }
            _ => None,
        }
    })
}

fn find_node(graph: &ArcGraph, name: &str) -> Option<usize> {
    (0..graph.node_count()).find(|&i| graph.node(i).name() == name)
}

fn externals_pair() -> ExternalsResult {
    ExternalsResult {
        crates: vec![
            ExternalCrateInfo {
                name: "serde".into(),
                version: "1.0.0".into(),
                package_id: "serde-pkg".into(),
            },
            ExternalCrateInfo {
                name: "tokio".into(),
                version: "1.0.0".into(),
                package_id: "tokio-pkg".into(),
            },
        ],
        workspace_deps: vec![WorkspaceExternalDep {
            workspace_crate: "my_crate".into(),
            external_pkg_id: "serde-pkg".into(),
            dep_kinds: vec![DependencyKind::Normal],
        }],
        external_deps: vec![ExternalDep {
            from_pkg_id: "serde-pkg".into(),
            to_pkg_id: "tokio-pkg".into(),
            dep_kinds: vec![DependencyKind::Normal],
        }],
        crate_name_map: StrMap::new(),
    }
}

// -- Tests --

#[test]
fn test_build_graph_single_crate() {
    let graph = ArcGraph::build(&[crate_("my_crate")], &[], None, false);
    assert_eq!(graph.node_count(), 1);
    assert_eq!(graph.edge_count(), 0);
}

#[test]
fn test_build_graph_with_modules() {
    let crates = vec![crate_("my_crate")];
    let modules = vec![tree(ModuleInfo {
        children: vec![module("foo", "crate::foo"), module("bar", "crate::bar")],
        ..module("my_crate", "crate")
    })];
    let graph = ArcGraph::build(&crates, &modules, None, false);
    assert_eq!(graph.node_count(), 3);
    assert_eq!(count_edges(&graph), (0, 0, 2));
}

#[test]
fn test_build_graph_crate_deps() {
    let crates = vec![crate_with_deps("crate_a", &["crate_b"]), crate_("crate_b")];
    let graph = ArcGraph::build(&crates, &[], None, false);
    assert_eq!(graph.node_count(), 2);
    assert_eq!(count_edges(&graph).0, 1);
}

#[test]
fn test_build_graph_crate_deps_hyphenated_package_name() {
    let crates = vec![crate_with_deps("crate-a", &["crate_b"]), crate_("crate-b")];
    let graph = ArcGraph::build(&crates, &[], None, false);
    assert_eq!(count_edges(&graph).0, 1);
}

#[test]
fn test_build_graph_module_deps() {
    let crates = vec![crate_("my_crate")];
    let modules = vec![tree(ModuleInfo {
        children: vec![
            module("foo", "crate::foo"),
            ModuleInfo {
                dependencies: vec![dep("crate", "foo", "src/bar.rs", 1)],
                ..module("bar", "crate::bar")
            },
        ],
        ..module("my_crate", "crate")
    })];
    let graph = ArcGraph::build(&crates, &modules, None, false);
    assert_eq!(graph.node_count(), 3);
    assert_eq!(count_edges(&graph), (0, 1, 2));
}

#[test]
fn test_build_graph_inter_crate_module_deps() {
    let crates = vec![crate_with_deps("crate_a", &["crate_b"]), crate_("crate_b")];
    let modules = vec![
        tree(ModuleInfo {
            children: vec![ModuleInfo {
                dependencies: vec![dep("crate_b", "gamma", "src/beta.rs", 1)],
                ..module("beta", "crate_a::beta")
            }],
            ..module("crate_a", "crate_a")
        }),
        tree(ModuleInfo {
            children: vec![module("gamma", "crate_b::gamma")],
            ..module("crate_b", "crate_b")
        }),
    ];
    let graph = ArcGraph::build(&crates, &modules, None, false);
    assert_eq!(graph.node_count(), 4);
    assert_eq!(count_edges(&graph), (1, 1, 2));
    let (_, locs) = find_module_dep(&graph, "beta", "gamma").expect("expected ModuleDep beta→gamma");
    assert_eq!(locs.len(), 1);
    assert_eq!(locs[0].file, "src/beta.rs");
    assert_eq!(locs[0].line, 1);
}

#[test]
fn test_production_subgraph_excludes_pure_reexport_edges_when_excluded() {
    let crates = vec![crate_("my_crate")];
    let modules = vec![tree(ModuleInfo {
        children: vec![
            ModuleInfo {
                dependencies: vec![reexport_dep("crate", "bar", "src/foo.rs", 1)],
                ..module("foo", "crate::foo")
            },
            ModuleInfo {
                dependencies: vec![dep("crate", "foo", "src/bar.rs", 1)],
                ..module("bar", "crate::bar")
            },
        ],
        ..module("my_crate", "crate")
    })];
    let graph = ArcGraph::build(&crates, &modules, None, false);

    let included = graph.production_subgraph(Reexports::Included);
    assert_eq!(included.edge_count(), 2, "included keeps both edges");
    assert!(petgraph::algo::is_cyclic_directed(&included));

    let excluded = graph.production_subgraph(Reexports::Excluded);
    assert_eq!(excluded.edge_count(), 1, "excluded drops the pure re-export edge");
    assert!(!petgraph::algo::is_cyclic_directed(&excluded), "excluded subgraph is acyclic");
}

#[test]
fn test_root_dependencies_in_module_deps() {
    let crates = vec![crate_("crate_a")];
    let modules = vec![tree(ModuleInfo {
        children: vec![module("gamma", "crate_a::gamma")],
        dependencies: vec![dep("crate_a", "gamma", "src/lib.rs", 5)],
        ..module("crate_a", "crate_a")
    })];
    let graph = ArcGraph::build(&crates, &modules, None, false);
    let (_, locs) = find_module_dep(&graph, "crate_a", "gamma").expect("expected ModuleDep root→gamma");
    assert_eq!(locs[0].file, "src/lib.rs");
}

#[test]
fn test_module_dep_to_crate_node() {
    let crates = vec![crate_with_deps("crate_a", &["crate_b"]), crate_("crate_b")];
    let modules = vec![
        tree(ModuleInfo {
            children: vec![ModuleInfo {
                dependencies: vec![DependencyRef {
                    target_item: Some("Widget".into()),
                    ..dep("crate_b", "", "src/beta.rs", 3)
                }],
                ..module("beta", "crate_a::beta")
            }],
            ..module("crate_a", "crate_a")
        }),
        tree(module("crate_b", "crate_b")),
    ];
    let graph = ArcGraph::build(&crates, &modules, None, false);
    let (_, locs) = find_module_dep(&graph, "beta", "crate_b").expect("expected ModuleDep from beta to crate_b");
    assert_eq!(locs[0].module, "crate_b");
    assert_eq!(locs[0].symbols, vec!["Widget"]);
}

#[test]
fn test_root_dep_to_module() {
    let crates = vec![crate_with_deps("crate_a", &["crate_b"]), crate_("crate_b")];
    let modules = vec![
        tree(ModuleInfo {
            dependencies: vec![dep("crate_b", "gamma", "src/lib.rs", 2)],
            ..module("crate_a", "crate_a")
        }),
        tree(ModuleInfo {
            children: vec![module("gamma", "crate_b::gamma")],
            ..module("crate_b", "crate_b")
        }),
    ];
    let graph = ArcGraph::build(&crates, &modules, None, false);
    let (_, locs) = find_module_dep(&graph, "crate_a", "gamma").expect("expected ModuleDep root→gamma");
    assert_eq!(locs[0].file, "src/lib.rs");
}

#[test]
fn test_root_dep_to_crate_node() {
    let crates = vec![crate_with_deps("crate_a", &["crate_b"]), crate_("crate_b")];
    let modules = vec![
        tree(ModuleInfo {
            dependencies: vec![DependencyRef {
                target_item: Some("Config".into()),
                ..dep("crate_b", "", "src/lib.rs", 1)
            }],
            ..module("crate_a", "crate_a")
        }),
        tree(module("crate_b", "crate_b")),
    ];
    let graph = ArcGraph::build(&crates, &modules, None, false);
    let (_, locs) = find_module_dep(&graph, "crate_a", "crate_b").expect("expected ModuleDep crate_a→crate_b");
    assert_eq!(locs[0].module, "crate_b");
    assert_eq!(locs[0].symbols, vec!["Config"]);
}

#[test]
fn test_cfg_test_dep_creates_test_edge() {
    let crates = vec![crate_("my_crate")];
    let modules = vec![tree(ModuleInfo {
        children: vec![
            module("foo", "crate::foo"),
            ModuleInfo {
                dependencies: vec![DependencyRef {
                    target_item: Some("helper".into()),
                    context: EdgeContext::test(TestKind::Unit),
                    ..dep("crate", "foo", "src/bar.rs", 5)
                }],
                ..module("bar", "crate::bar")
            },
        ],
        ..module("my_crate", "crate")
    })];
    let graph = ArcGraph::build(&crates, &modules, None, false);
    let (ctx, _) = find_module_dep(&graph, "bar", "foo").expect("expected ModuleDep bar→foo");
    assert_eq!(*ctx, EdgeContext::test(TestKind::Unit));
}

#[test]
fn test_mixed_context_merges_into_production_edge() {
    let crates = vec![crate_("my_crate")];
    let modules = vec![tree(ModuleInfo {
        children: vec![
            module("foo", "crate::foo"),
            ModuleInfo {
                dependencies: vec![
                    DependencyRef {
                        target_item: Some("run".into()),
                        ..dep("crate", "foo", "src/bar.rs", 1)
                    },
                    DependencyRef {
                        target_item: Some("test_helper".into()),
                        context: EdgeContext::test(TestKind::Unit),
                        ..dep("crate", "foo", "src/bar.rs", 10)
                    },
                ],
                ..module("bar", "crate::bar")
            },
        ],
        ..module("my_crate", "crate")
    })];
    let graph = ArcGraph::build(&crates, &modules, None, false);
    let (ctx, locs) = find_module_dep(&graph, "bar", "foo").expect("expected ModuleDep bar→foo");
    assert_eq!(*ctx, EdgeContext::production());
    assert_eq!(locs.len(), 2);
}

#[test]
fn test_external_crate_node_properties() {
    let node = Node::ExternalCrate {
        name: "serde".into(),
        version: "1.0.0".into(),
        package_id: "serde 1.0.0 (registry+...)".into(),
        is_direct_dependency: true,
    };
    assert!(!node.is_crate());
    assert!(node.is_external());
    assert_eq!(node.name(), "serde");
}

#[test]
fn test_production_reachable_excludes_external() {
    let mut graph = ArcGraph::new();
    let crate_idx = graph.add_node(Node::Crate { name: "my_crate".into(), path: "/path".into() });
    let mod_idx = graph.add_node(Node::Module { name: "foo".into(), crate_idx });
    graph.add_edge(crate_idx, mod_idx, Edge::Contains);
    let ext_idx = graph.add_node(Node::ExternalCrate {
        name: "serde".into(),
        version: "1.0.0".into(),
        package_id: "serde-pkg".into(),
        is_direct_dependency: true,
    });
    graph.add_edge(crate_idx, ext_idx, Edge::CrateDep { context: EdgeContext::production() });
    let reachable = graph.production_reachable();
    assert!(reachable.contains(&crate_idx));
    assert!(!reachable.contains(&ext_idx), "ExternalCrate should not be in production_reachable");
}

#[test]
fn test_production_reachable_crates_without_submodules() {
    let mut graph = ArcGraph::new();
    let a = graph.add_node(Node::Crate { name: "alpha".into(), path: "/path".into() });
    let b = graph.add_node(Node::Crate { name: "beta".into(), path: "/path".into() });
    graph.add_edge(a, b, Edge::CrateDep { context: EdgeContext::production() });
    let reachable = graph.production_reachable();
    assert!(reachable.contains(&a), "alpha should be reachable");
    assert!(reachable.contains(&b), "beta should be reachable");
}

/// Crate with modules, a leaf binary depending on it, and a test helper the
/// binary only pulls in for tests.
fn mixed_graph_with_leaf_and_helper() -> (ArcGraph, usize, usize) {
    let mut graph = ArcGraph::new();
    let lib = graph.add_node(Node::Crate { name: "lib".into(), path: "/path".into() });
    let module = graph.add_node(Node::Module { name: "engine".into(), crate_idx: lib });
    graph.add_edge(lib, module, Edge::Contains);
    let binary = graph.add_node(Node::Crate { name: "binary".into(), path: "/path".into() });
    let helper = graph.add_node(Node::Crate { name: "helper".into(), path: "/path".into() });
    for source in [binary, helper] {
        graph.add_edge(source, lib, Edge::CrateDep { context: EdgeContext::production() });
    }
    graph.add_edge(binary, helper, Edge::DevDep);
    (graph, binary, helper)
}

#[test]
fn test_production_reachable_keeps_leaf_binary() {
    let (graph, binary, _) = mixed_graph_with_leaf_and_helper();
    assert!(graph.production_reachable().contains(&binary));
}

#[test]
fn test_production_reachable_drops_dev_only_crate() {
    let (graph, _, helper) = mixed_graph_with_leaf_and_helper();
    assert!(!graph.production_reachable().contains(&helper));
}

#[test]
fn test_owning_crate_external() {
    let mut graph = ArcGraph::new();
    let ext_idx = graph.add_node(Node::ExternalCrate {
        name: "serde".into(),
        version: "1.0.0".into(),
        package_id: "serde-pkg".into(),
        is_direct_dependency: true,
    });
    assert_eq!(graph.owning_crate(ext_idx), ext_idx);
}

#[test]
fn test_qualified_name_disambiguates_same_leaf() {
    let mut graph = ArcGraph::new();
    let crate_idx = graph.add_node(Node::Crate { name: "my-crate".into(), path: "/my-crate".into() });
    let top_store = graph.add_node(Node::Module { name: "store".into(), crate_idx });
    graph.add_edge(crate_idx, top_store, Edge::Contains);
    let core = graph.add_node(Node::Module { name: "core".into(), crate_idx });
    graph.add_edge(crate_idx, core, Edge::Contains);
    let core_store = graph.add_node(Node::Module { name: "store".into(), crate_idx });
    graph.add_edge(core, core_store, Edge::Contains);

    assert_eq!(graph.qualified_name(top_store), "my-crate::store");
    assert_eq!(graph.qualified_name(core_store), "my-crate::core::store");
}

#[test]
fn test_qualified_name_orphan_falls_back_to_leaf() {
    let mut graph = ArcGraph::new();
    let idx = graph.add_node(Node::Module { name: "lonely".into(), crate_idx: 0 });
    assert_eq!(graph.qualified_name(idx), "lonely");
}

#[test]
fn test_qualified_name_crate_returns_bare_name() {
    let mut graph = ArcGraph::new();
    let crate_idx = graph.add_node(Node::Crate { name: "my-crate".into(), path: "/my-crate".into() });
    assert_eq!(graph.qualified_name(crate_idx), "my-crate");
}

#[test]
fn test_build_graph_with_externals() {
    let crates = vec![crate_("my_crate")];
    let externals = externals_pair();
    let graph = ArcGraph::build(&crates, &[], Some(&externals), false);
    assert_eq!(graph.node_count(), 3);
    assert_eq!(count_edges(&graph).0, 2);
}

#[test]
fn test_external_is_direct_dependency_flag() {
    let crates = vec![crate_("my_crate")];
    let externals = externals_pair();
    let graph = ArcGraph::build(&crates, &[], Some(&externals), false);
    let serde = find_node(&graph, "serde").expect("serde node should exist");
    assert!(matches!(graph.node(serde), Node::ExternalCrate { is_direct_dependency: true, .. }));
    let tokio = find_node(&graph, "tokio").expect("tokio node should exist");
    assert!(matches!(graph.node(tokio), Node::ExternalCrate { is_direct_dependency: false, .. }));
}

#[test]
fn test_build_graph_externals_none() {
    let crates = vec![crate_with_deps("a", &["b"]), crate_("b")];
    let graph = ArcGraph::build(&crates, &[], None, false);
    assert_eq!(graph.node_count(), 2);
    assert_eq!(count_edges(&graph).0, 1);
}

#[test]
fn test_resolve_node_finds_external() {
    let crates = vec![crate_("my_crate")];
    let externals = ExternalsResult {
        crates: vec![ExternalCrateInfo {
            name: "serde".into(),
            version: "1.0.0".into(),
            package_id: "serde-pkg".into(),
        }],
        workspace_deps: vec![],
        external_deps: vec![],
        crate_name_map: StrMap::new(),
    };
    let graph = ArcGraph::build(&crates, &[], Some(&externals), false);
    let ext_node = find_node(&graph, "serde");
    assert!(ext_node.is_some(), "should find serde external node");
    assert!(graph.node(ext_node.unwrap()).is_external());
}

// -- Further cases --

#[test]
fn dev_dependency_is_a_test_edge_with_tests_included() {
    let crates = vec![
        CrateInfo { dev_dependencies: vec!["b".into()], ..crate_("a") },
        crate_("b"),
    ];
    let shown = ArcGraph::build(&crates, &[], None, true);
    match shown.edge(0).2 {
        Edge::CrateDep { context } => assert_eq!(*context, EdgeContext::test(TestKind::Unit)),
        other => panic!("expected a test edge, got {other:?}"),
    }
    let hidden = ArcGraph::build(&crates, &[], None, false);
    assert!(matches!(hidden.edge(0).2, Edge::DevDep));
}

#[test]
fn module_edges_group_locations_by_file_then_line() {
    let crates = vec![crate_("app")];
    let modules = vec![tree(ModuleInfo {
        children: vec![
            module("foo", "app::foo"),
            ModuleInfo {
                dependencies: vec![
                    DependencyRef { target_item: Some("B".into()), ..dep("app", "foo", "src/z.rs", 9) },
                    DependencyRef { target_item: Some("A".into()), ..dep("app", "foo", "src/a.rs", 4) },
                    DependencyRef { target_item: Some("C".into()), ..reexport_dep("app", "foo", "src/a.rs", 2) },
                    DependencyRef { target_item: Some("D".into()), ..dep("app", "foo", "src/a.rs", 4) },
                ],
                ..module("bar", "app::bar")
            },
        ],
        ..module("app", "app")
    })];
    let graph = ArcGraph::build(&crates, &modules, None, false);
    let (_, locs) = find_module_dep(&graph, "bar", "foo").expect("expected ModuleDep bar→foo");
    let seen: Vec<(&str, usize, Vec<String>, bool)> = locs
        .iter()
        .map(|l| (l.file.as_str(), l.line, l.symbols.clone(), l.via_reexport))
        .collect();
    assert_eq!(
        seen,
        vec![
            ("src/a.rs", 2, vec!["C".to_string()], true),
            ("src/a.rs", 4, vec!["A".to_string(), "D".to_string()], false),
            ("src/z.rs", 9, vec!["B".to_string()], false),
        ]
    );
    assert_eq!(locs[0].module, "foo");
}

#[test]
fn a_module_edge_to_itself_is_dropped_and_an_unknown_target_too() {
    let crates = vec![crate_("app")];
    let modules = vec![tree(ModuleInfo {
        children: vec![ModuleInfo {
            dependencies: vec![dep("app", "foo", "src/foo.rs", 1), dep("elsewhere", "x", "src/foo.rs", 2)],
            ..module("foo", "app::foo")
        }],
        ..module("app", "app")
    })];
    let graph = ArcGraph::build(&crates, &modules, None, false);
    assert_eq!(count_edges(&graph), (0, 0, 1));
}

#[test]
fn a_test_only_external_dependency_is_a_test_edge() {
    let crates = vec![crate_("my_crate")];
    let mut externals = externals_pair();
    externals.workspace_deps[0].dep_kinds = vec![DependencyKind::Development];
    let graph = ArcGraph::build(&crates, &[], Some(&externals), false);
    let k = (0..graph.edge_count()).find(|&k| graph.edge(k).0 == 0).expect("workspace edge");
    match graph.edge(k).2 {
        Edge::CrateDep { context } => assert_eq!(*context, EdgeContext::test(TestKind::Unit)),
        other => panic!("expected a crate edge, got {other:?}"),
    }
}

#[test]
fn a_module_tree_of_an_unknown_crate_is_skipped() {
    let crates = vec![crate_("app")];
    let modules = vec![tree(ModuleInfo {
        children: vec![module("foo", "ghost::foo")],
        ..module("ghost", "ghost")
    })];
    let graph = ArcGraph::build(&crates, &modules, None, false);
    assert_eq!(graph.node_count(), 1);
    assert_eq!(graph.edge_count(), 0);
}

#[test]
fn checked_build_counts_every_module_dependency_and_link() {
    let crates = vec![crate_with_deps("my_crate", &["other"]), crate_("other")];
    let modules = vec![tree(ModuleInfo {
        children: vec![
            module("foo", "crate::foo"),
            ModuleInfo {
                dependencies: vec![dep("crate", "foo", "src/bar.rs", 1), dep("crate", "foo", "src/bar.rs", 2)],
                ..module("bar", "crate::bar")
            },
        ],
        ..module("my_crate", "my_crate")
    })];
    let ext = externals_pair();
    // Nodes: 2 crates, 3 modules (the root counted too), 2 external crates.
    // Edges: 3 modules, 1 crate dependency name, 2 module dependencies, 2 links.
    assert_eq!(graph_bounds(&crates, &modules, Some(&ext)), (7, 8));
    assert_eq!(graph_bounds(&crates, &modules, None), (5, 6));
    let graph = ArcGraph::checked_build(&crates, &modules, Some(&ext), false).expect("within the index limit");
    let plain = ArcGraph::build(&crates, &modules, Some(&ext), false);
    assert_eq!(graph.node_count(), plain.node_count());
    assert_eq!(graph.edge_count(), plain.edge_count());
    assert!(graph.node_count() <= 7 && graph.edge_count() <= 8);
    assert!(graph.containment_is_acyclic());
}
