use cargo_arc::analyze::line_parser::{
    parse_workspace_dependencies, process_use_statement, process_use_statement_multi,
};
use cargo_arc::analyze::{parse_crate_dependencies, DependencyRef, ModuleInfo};
use cargo_arc::collections::StrSet;
use cargo_arc::model::normalize_crate_name;

fn set(items: &[&str]) -> StrSet {
    let mut s = StrSet::new();
    for item in items {
        s.insert(item.to_string());
    }
    s
}

#[test]
fn test_dependency_ref_struct() {
    let dep = DependencyRef {
        target: "crate::graph".to_string(),
        source_file: "src/cli.rs".to_string(),
        line: 42,
    };
    assert_eq!(dep.target, "crate::graph");
    assert_eq!(dep.source_file, "src/cli.rs");
    assert_eq!(dep.line, 42);
}

#[test]
fn test_module_info_has_dependency_refs() {
    let module = ModuleInfo {
        name: "cli".to_string(),
        full_path: "crate::cli".to_string(),
        children: vec![],
        dependencies: vec![DependencyRef {
            target: "crate::graph".to_string(),
            source_file: "src/cli.rs".to_string(),
            line: 5,
        }],
    };
    assert!(module
        .dependencies
        .iter()
        .any(|d| d.target == "crate::graph"));
}

#[test]
fn test_parse_crate_dependencies_simple() {
    let source = r#"
use crate::graph;
use crate::analyze;
"#;
    let deps = parse_crate_dependencies(source);
    assert_eq!(deps.len(), 2);
    assert!(deps.iter().any(|(t, _)| t == "crate::graph"));
    assert!(deps.iter().any(|(t, _)| t == "crate::analyze"));
}

#[test]
fn test_parse_crate_dependencies_nested() {
    let source = r#"
use crate::analyze::{CrateInfo, ModuleInfo};
use crate::graph::build_graph;
use crate::layout::{build_layout, detect_cycles};
"#;
    let deps = parse_crate_dependencies(source);
    assert_eq!(deps.len(), 3);
    assert!(deps.iter().any(|(t, _)| t == "crate::analyze"));
    assert!(deps.iter().any(|(t, _)| t == "crate::graph"));
    assert!(deps.iter().any(|(t, _)| t == "crate::layout"));
}

#[test]
fn test_parse_crate_dependencies_dedup() {
    let source = r#"
use crate::graph::build_graph;
use crate::graph::Node;
use crate::graph;
"#;
    let deps = parse_crate_dependencies(source);
    assert_eq!(deps.len(), 1, "should deduplicate by target");
    assert_eq!(deps[0].0, "crate::graph");
    assert_eq!(deps[0].1, 2, "should keep first occurrence line number");
}

#[test]
fn test_parse_crate_dependencies_line_numbers() {
    let source = r#"// Comment
use std::path::Path;
use crate::foo;
// Another comment
use crate::bar;
"#;
    let deps = parse_crate_dependencies(source);
    assert_eq!(deps.len(), 2);
    let foo = deps.iter().find(|(t, _)| t == "crate::foo").unwrap();
    let bar = deps.iter().find(|(t, _)| t == "crate::bar").unwrap();
    assert_eq!(foo.1, 3, "crate::foo on line 3");
    assert_eq!(bar.1, 5, "crate::bar on line 5");
}

#[test]
fn test_parse_crate_dependencies_ignores_external() {
    let source = r#"
use std::collections::HashMap;
use anyhow::Result;
use crate::analyze;
use petgraph::Graph;
"#;
    let deps = parse_crate_dependencies(source);
    assert_eq!(deps.len(), 1);
    assert_eq!(deps[0].0, "crate::analyze");
}

#[test]
fn test_parse_crate_dependencies_empty() {
    let source = r#"
// No use statements
fn main() {}
"#;
    let deps = parse_crate_dependencies(source);
    assert!(deps.is_empty());
}

#[test]
fn use_parser_test_normalize_crate_name() {
    assert_eq!(normalize_crate_name("my-lib"), "my_lib");
    assert_eq!(normalize_crate_name("already_valid"), "already_valid");
    assert_eq!(normalize_crate_name("a-b-c"), "a_b_c");
}

#[test]
fn use_parser_test_process_use_statement_crate_local() {
    let ws = set(&[]);
    let dep = process_use_statement("use crate::graph::build;", 1, "my_crate", &ws, "src/cli.rs");
    let dep = dep.expect("should parse crate-local import");
    assert_eq!(dep.target_crate, "my_crate");
    assert_eq!(dep.target_module, "graph");
    assert_eq!(dep.target_item, Some("build".to_string()));
}

#[test]
fn use_parser_test_process_use_statement_crate_local_module_only() {
    let ws = set(&[]);
    let dep = process_use_statement("use crate::graph;", 5, "my_crate", &ws, "src/lib.rs");
    let dep = dep.expect("should parse crate-local module import");
    assert_eq!(dep.target_crate, "my_crate");
    assert_eq!(dep.target_module, "graph");
    assert!(dep.target_item.is_none());
    assert_eq!(dep.line, 5);
}

#[test]
fn use_parser_test_process_use_statement_workspace_crate() {
    let ws = set(&["other_crate"]);
    let dep = process_use_statement("use other_crate::utils;", 1, "my_crate", &ws, "src/lib.rs");
    let dep = dep.expect("should parse workspace crate import");
    assert_eq!(dep.target_crate, "other_crate");
    assert_eq!(dep.target_module, "utils");
}

#[test]
fn use_parser_test_process_use_statement_workspace_crate_with_hyphen() {
    let ws = set(&["my-lib"]);
    let dep = process_use_statement("use my_lib::feature;", 1, "app", &ws, "src/main.rs");
    let dep = dep.expect("should parse workspace crate with hyphen");
    assert_eq!(dep.target_crate, "my_lib");
    assert_eq!(dep.target_module, "feature");
}

#[test]
fn test_process_use_statement_relative_self_ignored() {
    let ws = set(&[]);
    let dep = process_use_statement("use self::helper;", 1, "my_crate", &ws, "src/lib.rs");
    assert!(dep.is_none(), "self:: imports should be ignored");
}

#[test]
fn test_process_use_statement_relative_super_ignored() {
    let ws = set(&[]);
    let dep = process_use_statement("use super::parent;", 1, "my_crate", &ws, "src/sub/mod.rs");
    assert!(dep.is_none(), "super:: imports should be ignored");
}

#[test]
fn use_parser_test_process_use_statement_external_filtered() {
    let ws = set(&["my_crate"]);
    let dep = process_use_statement("use serde::Serialize;", 1, "my_crate", &ws, "src/lib.rs");
    assert!(dep.is_none(), "external crate imports should be filtered");
}

#[test]
fn use_parser_test_process_use_statement_std_filtered() {
    let ws = set(&[]);
    let dep = process_use_statement(
        "use std::collections::HashMap;",
        1,
        "my_crate",
        &ws,
        "src/lib.rs",
    );
    assert!(dep.is_none(), "std imports should be filtered");
}

#[test]
fn use_parser_test_parse_workspace_dependencies_mixed() {
    let source = r#"
use crate::graph;
use other_crate::utils;
use serde::Serialize;
use std::collections::HashMap;
"#;
    let ws = set(&["my_crate", "other_crate"]);
    let deps = parse_workspace_dependencies(source, "my_crate", &ws, "src/lib.rs");

    assert_eq!(deps.len(), 2, "found: {:?}", deps);
    assert!(deps
        .iter()
        .any(|d| d.target_crate == "my_crate" && d.target_module == "graph"));
    assert!(deps
        .iter()
        .any(|d| d.target_crate == "other_crate" && d.target_module == "utils"));
}

#[test]
fn use_parser_test_parse_workspace_dependencies_dedup_by_full_target() {
    let source = r#"
use crate::graph::build;
use crate::graph::Node;
use crate::graph;
"#;
    let ws = set(&[]);
    let deps = parse_workspace_dependencies(source, "my_crate", &ws, "src/cli.rs");

    assert_eq!(deps.len(), 3, "should keep distinct symbols: {:?}", deps);
    assert!(deps
        .iter()
        .any(|d| d.target_item == Some("build".to_string())));
    assert!(deps
        .iter()
        .any(|d| d.target_item == Some("Node".to_string())));
    assert!(deps.iter().any(|d| d.target_item.is_none()));
}

#[test]
fn use_parser_test_process_use_multi_symbol() {
    let ws = set(&[]);
    let deps = process_use_statement_multi(
        "use crate::graph::{Node, Edge};",
        1,
        "my_crate",
        &ws,
        "src/cli.rs",
    );
    assert_eq!(deps.len(), 2, "should return 2 deps: {:?}", deps);
    assert!(deps
        .iter()
        .any(|d| d.target_item == Some("Node".to_string())));
    assert!(deps
        .iter()
        .any(|d| d.target_item == Some("Edge".to_string())));
}

#[test]
fn use_parser_test_process_use_glob() {
    let ws = set(&[]);
    let deps = process_use_statement_multi(
        "use crate::analyze::*;",
        1,
        "my_crate",
        &ws,
        "src/cli.rs",
    );
    assert_eq!(deps.len(), 1, "glob should return 1 dep: {:?}", deps);
    assert_eq!(deps[0].target_item, Some("*".to_string()));
    assert_eq!(deps[0].target_module, "analyze");
}
