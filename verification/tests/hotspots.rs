use cargo_arc::hotspots::{
    collect_leaves, copy_node, hotspot_score, max_file_commits, rank_leaves, HotspotKind,
    HotspotNode, HotspotTree,
};

fn file(name: &str, path: &str, lines: usize, commits: usize) -> HotspotNode {
    HotspotNode {
        name: name.to_string(),
        kind: HotspotKind::File,
        file: path.to_string(),
        lines,
        commits,
        children: Vec::new(),
    }
}

fn container(kind: HotspotKind, name: &str, path: &str, children: Vec<HotspotNode>) -> HotspotNode {
    HotspotNode {
        name: name.to_string(),
        kind,
        file: path.to_string(),
        lines: children.iter().map(|c| c.lines).sum(),
        commits: 0,
        children,
    }
}

fn sample() -> HotspotNode {
    container(
        HotspotKind::Crate,
        "core",
        "core/Cargo.toml",
        vec![
            file("lib.rs", "core/src/lib.rs", 10, 3),
            container(
                HotspotKind::Module,
                "graph",
                "core/src/graph.rs",
                vec![
                    file("graph.rs", "core/src/graph.rs", 30, 1),
                    file("edge.rs", "core/src/graph/edge.rs", 5, 6),
                    file("cold.rs", "core/src/graph/cold.rs", 100, 0),
                ],
            ),
            file("alpha.rs", "core/src/alpha.rs", 15, 2),
        ],
    )
}

#[test]
fn leaves_are_collected_in_tree_order() {
    let root = sample();
    let mut out = Vec::new();
    collect_leaves(&root, &mut out);
    let names: Vec<&str> = out.iter().map(|n| n.name.as_str()).collect();
    assert_eq!(names, vec!["lib.rs", "graph.rs", "edge.rs", "cold.rs", "alpha.rs"]);
}

#[test]
fn ranked_leaves_go_by_score_then_name_and_skip_zero_scores() {
    let root = sample();
    let ranked = rank_leaves(&root, 10);
    let names: Vec<&str> = ranked.iter().map(|n| n.name.as_str()).collect();
    // scores: lib 30, graph 30, edge 30, cold 0, alpha 30
    assert_eq!(names, vec!["alpha.rs", "edge.rs", "graph.rs", "lib.rs"]);
}

#[test]
fn ranked_leaves_are_capped_at_n() {
    let root = container(
        HotspotKind::Crate,
        "c",
        "c/Cargo.toml",
        vec![
            file("small.rs", "c/src/small.rs", 1, 1),
            file("big.rs", "c/src/big.rs", 50, 4),
            file("mid.rs", "c/src/mid.rs", 10, 3),
        ],
    );
    let ranked = rank_leaves(&root, 2);
    let names: Vec<&str> = ranked.iter().map(|n| n.name.as_str()).collect();
    assert_eq!(names, vec!["big.rs", "mid.rs"]);
    assert!(rank_leaves(&root, 0).is_empty());
}

#[test]
fn a_copy_keeps_every_value() {
    let root = sample();
    assert_eq!(copy_node(&root), root);
}

#[test]
fn the_score_saturates() {
    assert_eq!(hotspot_score(&file("a", "a", 7, 6)), 42);
    assert_eq!(hotspot_score(&file("a", "a", usize::MAX, 2)), usize::MAX);
}

#[test]
fn the_busiest_file_counts_only_leaves() {
    let mut root = sample();
    root.commits = 99;
    assert_eq!(max_file_commits(&root), 6);
}

#[test]
fn rank_is_one_based_and_none_for_containers() {
    let root = sample();
    let hotspots = rank_leaves(&root, 10);
    let tree = HotspotTree { root: sample(), max_file_commits: 6, total_commits: 9, hotspots };
    assert_eq!(tree.rank_of(&file("edge.rs", "core/src/graph/edge.rs", 5, 6)), Some(2));
    assert_eq!(tree.rank_of(&file("cold.rs", "core/src/graph/cold.rs", 100, 0)), None);
    let module = container(HotspotKind::Module, "graph", "core/src/graph.rs", Vec::new());
    assert_eq!(tree.rank_of(&module), None);
}

#[test]
fn counts_code_lines_and_skips_comments_and_blanks() {
    let source = "fn main() {\n    // a comment\n    let x = 1;\n\n    // another comment\n}\n";
    assert_eq!(cargo_arc::hotspots::code_lines(source), 3);
}

#[test]
fn counts_doc_comments_and_block_comments_as_non_code() {
    let source = "/// Adds two numbers.\n/*\n * block comment\n */\nfn add(a: i32, b: i32) -> i32 {\n    a + b\n}\n";
    assert_eq!(cargo_arc::hotspots::code_lines(source), 3);
}

#[test]
fn leaves_equal_in_score_and_name_keep_tree_order() {
    let root = container(
        HotspotKind::Crate,
        "c",
        "c/Cargo.toml",
        vec![
            file("mod.rs", "c/src/b/mod.rs", 4, 1),
            file("mod.rs", "c/src/a/mod.rs", 2, 2),
            file("lib.rs", "c/src/lib.rs", 9, 1),
        ],
    );
    let ranked = rank_leaves(&root, 10);
    let files: Vec<&str> = ranked.iter().map(|n| n.file.as_str()).collect();
    assert_eq!(files, vec!["c/src/lib.rs", "c/src/b/mod.rs", "c/src/a/mod.rs"]);
}
