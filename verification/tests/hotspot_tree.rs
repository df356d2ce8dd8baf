use cargo_arc::collections::StrSet;
use cargo_arc::graph::{ArcGraph, Edge, Node};
use cargo_arc::hotspots::{
    build, build_crate, build_module, hotspot_sources, CrateSource, FileStats, HotspotKind, ModuleSource, NodeFiles,
};

fn commits(hashes: &[&str]) -> StrSet {
    let mut set = StrSet::new();
    for h in hashes {
        set.insert(h.to_string());
    }
    set
}

fn stats(path: &str, lines: usize, hashes: &[&str]) -> FileStats {
    FileStats { path: path.to_string(), lines, commits: commits(hashes) }
}

fn module(name: &str, file: Option<FileStats>, children: Vec<ModuleSource>) -> ModuleSource {
    ModuleSource { name: name.to_string(), file, children }
}

fn krate(name: &str, manifest: &str, roots: Vec<FileStats>, modules: Vec<ModuleSource>) -> CrateSource {
    CrateSource { name: name.to_string(), manifest: manifest.to_string(), roots, modules }
}

#[test]
fn a_crate_root_target_is_a_leaf_in_the_crate() {
    let crates = vec![krate("app", "/ws/app/Cargo.toml", vec![stats("/ws/app/src/lib.rs", 10, &[])], vec![])];
    let tree = build(&crates, "/ws", 10);

    assert_eq!(tree.root.kind, HotspotKind::Crate);
    assert_eq!(tree.root.name, "app");
    assert_eq!(tree.root.file, "app/Cargo.toml");
    assert_eq!(tree.root.children.len(), 1);

    let leaf = &tree.root.children[0];
    assert_eq!(leaf.kind, HotspotKind::File);
    assert_eq!(leaf.name, "lib.rs");
    assert_eq!(leaf.file, "app/src/lib.rs");
    assert_eq!(leaf.lines, 10);
    assert_eq!(leaf.commits, 0);
    assert_eq!(tree.rank_of(leaf), None);

    assert_eq!(tree.root.lines, 10);
    assert_eq!(tree.root.commits, 0);
    assert_eq!(tree.total_commits, 0);
    assert_eq!(tree.max_file_commits, 0);
    assert!(tree.hotspots.is_empty());
}

#[test]
fn a_module_without_children_is_a_leaf() {
    let cli = module("cli", Some(stats("/ws/app/src/cli.rs", 4, &[])), vec![]);
    let crates = vec![krate("app", "/ws/app/Cargo.toml", vec![], vec![cli])];
    let tree = build(&crates, "/ws", 10);

    assert_eq!(tree.root.children.len(), 1);
    let leaf = &tree.root.children[0];
    assert_eq!(leaf.kind, HotspotKind::File);
    assert_eq!(leaf.name, "cli.rs");
    assert_eq!(leaf.file, "app/src/cli.rs");
    assert_eq!(leaf.lines, 4);
    assert!(leaf.children.is_empty());
    assert_eq!(tree.root.lines, 4);
}

#[test]
fn a_module_with_children_is_a_container_holding_its_own_file_as_a_leaf() {
    let hir = module("hir", Some(stats("/ws/app/src/analyze/hir.rs", 7, &[])), vec![]);
    let analyze = module("analyze", Some(stats("/ws/app/src/analyze/mod.rs", 3, &[])), vec![hir]);
    let crates = vec![krate("app", "/ws/app/Cargo.toml", vec![], vec![analyze])];
    let tree = build(&crates, "/ws", 10);

    assert_eq!(tree.root.children.len(), 1);
    let container = &tree.root.children[0];
    assert_eq!(container.kind, HotspotKind::Module);
    assert_eq!(container.name, "analyze");
    assert_eq!(container.file, "app/src/analyze/mod.rs");
    assert_eq!(container.lines, 10);
    assert_eq!(container.children.len(), 2);

    let self_leaf = &container.children[0];
    assert_eq!(self_leaf.kind, HotspotKind::File);
    assert_eq!(self_leaf.name, "mod.rs");
    assert_eq!(self_leaf.file, "app/src/analyze/mod.rs");
    assert_eq!(self_leaf.lines, 3);

    let hir_leaf = &container.children[1];
    assert_eq!(hir_leaf.kind, HotspotKind::File);
    assert_eq!(hir_leaf.name, "hir.rs");
    assert_eq!(hir_leaf.file, "app/src/analyze/hir.rs");
    assert_eq!(hir_leaf.lines, 7);
}

#[test]
fn several_crates_get_a_workspace_root_a_single_crate_does_not() {
    let crates = vec![
        krate("app", "/ws/app/Cargo.toml", vec![stats("/ws/app/src/lib.rs", 5, &[])], vec![]),
        krate("core", "/ws/core/Cargo.toml", vec![stats("/ws/core/src/lib.rs", 5, &[])], vec![]),
    ];
    let tree = build(&crates, "/ws", 10);

    assert_eq!(tree.root.kind, HotspotKind::Workspace);
    assert_eq!(tree.root.name, "ws");
    assert_eq!(tree.root.file, "");
    assert_eq!(tree.root.lines, 10);
    let names: Vec<&str> = tree.root.children.iter().map(|c| c.name.as_str()).collect();
    assert_eq!(names, vec!["app", "core"]);
}

#[test]
fn leaves_rank_by_lines_times_commits_ties_by_name() {
    let hot = module("hot", Some(stats("/ws/app/src/hot.rs", 100, &["a", "b"])), vec![]);
    let cold = module("cold", Some(stats("/ws/app/src/cold.rs", 10, &["c"])), vec![]);
    let quiet = module("quiet", Some(stats("/ws/app/src/quiet.rs", 10, &[])), vec![]);
    let crates = vec![krate("app", "/ws/app/Cargo.toml", vec![], vec![hot, cold, quiet])];
    let tree = build(&crates, "/ws", 1);

    assert_eq!(tree.max_file_commits, 2);
    assert_eq!(tree.total_commits, 3);
    assert_eq!(tree.hotspots.len(), 1);
    assert_eq!(tree.hotspots[0].name, "hot.rs");
    assert_eq!(tree.rank_of(&tree.hotspots[0]), Some(1));

    let quiet = tree.root.children.iter().find(|c| c.name == "quiet.rs").unwrap();
    assert_eq!(quiet.commits, 0);
    assert_eq!(tree.rank_of(quiet), None);
}

#[test]
fn a_container_has_no_rank_even_when_its_own_file_is_ranked() {
    let inner = module("inner", Some(stats("/ws/app/src/outer/inner.rs", 1, &[])), vec![]);
    let outer = module("outer", Some(stats("/ws/app/src/outer.rs", 1, &["a"])), vec![inner]);
    let crates = vec![krate("app", "/ws/app/Cargo.toml", vec![], vec![outer])];
    let tree = build(&crates, "/ws", 10);

    let container = &tree.root.children[0];
    assert_eq!(container.kind, HotspotKind::Module);
    let own_leaf = &container.children[0];
    assert_eq!(own_leaf.file, container.file);
    assert_eq!(tree.rank_of(own_leaf), Some(1));
    assert_eq!(tree.rank_of(container), None);
}

#[test]
fn container_commits_are_the_union_not_the_sum_of_shared_commits() {
    let hot = module("hot", Some(stats("/ws/app/src/hot.rs", 1, &["a", "b"])), vec![]);
    let cold = module("cold", Some(stats("/ws/app/src/cold.rs", 1, &["b", "c"])), vec![]);
    let outer = module("outer", Some(stats("/ws/app/src/outer.rs", 1, &[])), vec![hot, cold]);
    let crates = vec![krate("app", "/ws/app/Cargo.toml", vec![], vec![outer])];
    let tree = build(&crates, "/ws", 10);

    let outer = &tree.root.children[0];
    assert_eq!(outer.name, "outer");
    assert_eq!(outer.commits, 3);
    assert_eq!(tree.root.commits, 3);
    assert_eq!(tree.total_commits, 3);
}

#[test]
fn a_workspace_nested_in_the_repository_still_emits_workspace_relative_paths() {
    let crates = vec![krate(
        "app",
        "/repo/sub/workspace/app/Cargo.toml",
        vec![stats("/repo/sub/workspace/app/src/lib.rs", 1, &[])],
        vec![],
    )];
    let tree = build(&crates, "/repo/sub/workspace", 10);

    assert_eq!(tree.root.file, "app/Cargo.toml");
    assert_eq!(tree.root.children[0].file, "app/src/lib.rs");
}

#[test]
fn a_module_with_no_declaring_file_has_no_place_in_the_tree() {
    let ghost = module("ghost", None, vec![]);
    let crates = vec![krate("app", "/ws/app/Cargo.toml", vec![], vec![ghost])];
    let tree = build(&crates, "/ws", 5);

    assert!(tree.root.children.is_empty());
}

#[test]
fn workspace_crates_are_sorted_by_name_with_their_commits_merged() {
    let crates = vec![
        krate("zeta", "/ws/zeta/Cargo.toml", vec![stats("/ws/zeta/src/lib.rs", 2, &["x", "y"])], vec![]),
        krate("alpha", "/ws/alpha/Cargo.toml", vec![stats("/ws/alpha/src/main.rs", 3, &["y", "z"])], vec![]),
    ];
    let tree = build(&crates, "/ws", 10);
    let names: Vec<&str> = tree.root.children.iter().map(|c| c.name.as_str()).collect();
    assert_eq!(names, vec!["alpha", "zeta"]);
    assert_eq!(tree.root.name, "ws");
    assert_eq!(tree.root.lines, 5);
    assert_eq!(tree.root.commits, 3);
    assert_eq!(tree.total_commits, 3);
    assert_eq!(tree.max_file_commits, 2);
    assert_eq!(tree.hotspots.len(), 2);
    assert_eq!(tree.hotspots[0].name, "main.rs");
}

#[test]
fn a_module_file_with_repeated_commits_counts_each_once() {
    let mut repeated = commits(&["a"]);
    repeated.items.push("a".to_string());
    let m = module("m", Some(FileStats { path: "/ws/m.rs".to_string(), lines: 2, commits: repeated }), vec![]);
    let (node, set) = build_module(&m, "/ws").unwrap();
    assert_eq!(node.commits, 1);
    assert_eq!(set.len(), 1);
    assert_eq!(node.name, "m.rs");
    assert!(build_module(&module("none", None, vec![]), "/ws").is_none());
}

#[test]
fn a_crate_lists_its_root_files_before_its_modules() {
    let c = krate(
        "app",
        "/ws/app/Cargo.toml",
        vec![stats("/ws/app/src/main.rs", 1, &["a"]), stats("/ws/app/src/lib.rs", 2, &["b"])],
        vec![module("util", Some(stats("/ws/app/src/util.rs", 4, &["a", "c"])), vec![])],
    );
    let (node, set) = build_crate(&c, "/ws");
    let names: Vec<&str> = node.children.iter().map(|c| c.name.as_str()).collect();
    assert_eq!(names, vec!["main.rs", "lib.rs", "util.rs"]);
    assert_eq!(node.lines, 7);
    assert_eq!(node.commits, 3);
    assert_eq!(set.len(), 3);
}

#[test]
fn the_graph_walk_gives_each_crate_with_its_contained_modules() {
    let mut g = ArcGraph::new();
    let app = g.add_node(Node::Crate { name: "app".into(), path: "/ws/app".into() });
    let analyze = g.add_node(Node::Module { name: "analyze".into(), crate_idx: app });
    let hir = g.add_node(Node::Module { name: "hir".into(), crate_idx: app });
    let ghost = g.add_node(Node::Module { name: "ghost".into(), crate_idx: app });
    g.add_edge(app, analyze, Edge::Contains);
    g.add_edge(analyze, hir, Edge::Contains);
    g.add_edge(app, ghost, Edge::Contains);
    let none = || NodeFiles { file: None, manifest: String::new(), roots: vec![] };
    let files = vec![
        NodeFiles { file: None, manifest: "/ws/app/Cargo.toml".into(), roots: vec![stats("/ws/app/src/lib.rs", 2, &["a"])] },
        NodeFiles { file: Some(stats("/ws/app/src/analyze/mod.rs", 3, &["a", "b"])), ..none() },
        NodeFiles { file: Some(stats("/ws/app/src/analyze/hir.rs", 7, &[])), ..none() },
        none(),
    ];
    let crates = hotspot_sources(&g, &files);
    assert_eq!(crates.len(), 1);
    assert_eq!(crates[0].name, "app");
    assert_eq!(crates[0].modules.len(), 2);
    assert_eq!(crates[0].modules[0].children.len(), 1);
    assert_eq!(crates[0].modules[0].children[0].name, "hir");
    assert!(crates[0].modules[1].file.is_none());

    let tree = build(&crates, "/ws", 10);
    assert_eq!(tree.root.kind, HotspotKind::Crate);
    assert_eq!(tree.root.file, "app/Cargo.toml");
    let names: Vec<&str> = tree.root.children.iter().map(|c| c.name.as_str()).collect();
    assert_eq!(names, vec!["lib.rs", "analyze"]);
    assert_eq!(tree.root.lines, 12);
    assert_eq!(tree.root.commits, 2);
    assert_eq!(tree.root.children[1].children.len(), 2);
}
