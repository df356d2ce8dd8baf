use cargo_arc::cli::{register_hotspot_targets, workspace_root_of};
use cargo_arc::hotspots::{HotspotKind, HotspotNode, HotspotTree};
use cargo_arc::layout::jump::JumpTable;
use cargo_arc::model::CrateInfo;

#[test]
fn workspace_root_is_none_for_a_workspace_without_crates() {
    assert_eq!(workspace_root_of(&[]), None);
}

#[test]
fn workspace_root_of_reads_the_first_crates_root() {
    let krate = CrateInfo {
        name: "a".into(),
        path: "/ws/a".into(),
        workspace_root: "/ws".into(),
        target_roots: vec![],
        manifest: "/ws/a/Cargo.toml".into(),
        dependencies: vec![],
        dev_dependencies: vec![],
    };
    assert_eq!(workspace_root_of(&[krate]), Some("/ws".to_string()));
}

#[test]
fn register_hotspot_targets_does_not_overwrite_the_arc_nodes_own_file_lookup() {
    let workspace_root = "/ws".to_string();
    let mut table = JumpTable::new();
    let module_id = table.insert("/ws/app/src/hot.rs".to_string(), 1);
    table.insert_node_files("42", &[module_id]);

    let leaf = HotspotNode {
        name: "hot.rs".to_string(),
        kind: HotspotKind::File,
        file: "app/src/hot.rs".to_string(),
        lines: 10,
        commits: 0,
        children: Vec::new(),
    };
    let tree = HotspotTree {
        root: leaf,
        max_file_commits: 0,
        total_commits: 0,
        hotspots: Vec::new(),
    };

    register_hotspot_targets(&mut table, &tree, &workspace_root);

    assert_eq!(
        table.node_at("/ws/app/src/hot.rs"),
        Some("42"),
        "a hotspot leaf sharing a file with an arc module must not overwrite the arc node lookup for it"
    );
}
