use cargo_arc::analyze::externals::{
    analyze_externals, DependencyKind, ExternalCrateInfo, ExternalDep, ExternalsResult, Metadata,
    NodeDep, Package, Resolve, ResolveNode, WorkspaceExternalDep,
};
use cargo_arc::collections::StrMap;

fn package(id: &str, name: &str, version: &str, external: bool) -> Package {
    Package {
        id: id.to_string(),
        name: name.to_string(),
        version: version.to_string(),
        source: if external {
            Some("registry+https://github.com/rust-lang/crates.io-index".to_string())
        } else {
            None
        },
    }
}

fn dep(name: &str, pkg: &str, kinds: &[DependencyKind]) -> NodeDep {
    NodeDep {
        name: name.to_string(),
        pkg: pkg.to_string(),
        dep_kinds: kinds.to_vec(),
    }
}

fn node(id: &str, deps: Vec<NodeDep>) -> ResolveNode {
    ResolveNode {
        id: id.to_string(),
        deps,
    }
}

/// A workspace `my-app` depending on serde (normal), tempfile (dev), cc
/// (build only), and the path crate `my-lib`; serde depends on serde_derive.
fn workspace() -> Metadata {
    Metadata {
        packages: vec![
            package("my-app 0.1.0 (path+file:///ws/app)", "my-app", "0.1.0", false),
            package("my-lib 0.1.0 (path+file:///ws/lib)", "my-lib", "0.1.0", false),
            package("serde 1.0.0", "serde", "1.0.0", true),
            package("serde_derive 1.0.0", "serde_derive", "1.0.0", true),
            package("tempfile 3.0.0", "tempfile", "3.0.0", true),
            package("cc 1.0.0", "cc", "1.0.0", true),
        ],
        workspace_members: vec![
            "my-app 0.1.0 (path+file:///ws/app)".to_string(),
            "my-lib 0.1.0 (path+file:///ws/lib)".to_string(),
        ],
        resolve: Some(Resolve {
            nodes: vec![
                node(
                    "my-app 0.1.0 (path+file:///ws/app)",
                    vec![
                        dep("serde", "serde 1.0.0", &[DependencyKind::Normal]),
                        dep("tempfile", "tempfile 3.0.0", &[DependencyKind::Development]),
                        dep("cc", "cc 1.0.0", &[DependencyKind::Build]),
                        dep("my_lib", "my-lib 0.1.0 (path+file:///ws/lib)", &[DependencyKind::Normal]),
                    ],
                ),
                node(
                    "my-lib 0.1.0 (path+file:///ws/lib)",
                    vec![dep(
                        "serde",
                        "serde 1.0.0",
                        &[DependencyKind::Build, DependencyKind::Normal],
                    )],
                ),
                node(
                    "serde 1.0.0",
                    vec![dep("serde_derive", "serde_derive 1.0.0", &[DependencyKind::Normal])],
                ),
            ],
        }),
    }
}

#[test]
fn test_externals_result_construction() {
    let mut inner = StrMap::new();
    inner.insert("serde".to_string(), "serde 1.0.0".to_string());
    let mut outer = StrMap::new();
    outer.insert("my_crate".to_string(), inner);
    let result = ExternalsResult {
        crates: vec![ExternalCrateInfo {
            name: "serde".to_string(),
            version: "1.0.0".to_string(),
            package_id: "serde 1.0.0 (registry+...)".to_string(),
        }],
        external_deps: vec![ExternalDep {
            from_pkg_id: "serde 1.0.0".to_string(),
            to_pkg_id: "serde_derive 1.0.0".to_string(),
            dep_kinds: vec![DependencyKind::Normal],
        }],
        workspace_deps: vec![WorkspaceExternalDep {
            workspace_crate: "my_crate".to_string(),
            external_pkg_id: "serde 1.0.0".to_string(),
            dep_kinds: vec![DependencyKind::Normal],
        }],
        crate_name_map: outer,
    };

    assert_eq!(result.crates.len(), 1);
    assert_eq!(result.crates[0].name, "serde");
    assert_eq!(result.external_deps.len(), 1);
    assert_eq!(result.workspace_deps.len(), 1);
    assert_eq!(
        result.crate_name_map.get("my_crate").unwrap().get("serde").unwrap(),
        "serde 1.0.0"
    );
}

#[test]
fn externals_are_the_direct_registry_deps_of_members() {
    let result = analyze_externals(&workspace(), false);
    let names: Vec<&str> = result.crates.iter().map(|c| c.name.as_str()).collect();
    // Order of first appearance; the path crate, the build-only crate and
    // the dependency of an external crate are not there.
    assert_eq!(names, vec!["serde", "tempfile"]);
    assert!(result.external_deps.is_empty());
}

#[test]
fn every_member_edge_is_listed_with_its_followed_kinds() {
    let result = analyze_externals(&workspace(), false);
    let deps: Vec<(&str, &str, Vec<DependencyKind>)> = result
        .workspace_deps
        .iter()
        .map(|d| (d.workspace_crate.as_str(), d.external_pkg_id.as_str(), d.dep_kinds.clone()))
        .collect();
    assert_eq!(
        deps,
        vec![
            ("my_app", "serde 1.0.0", vec![DependencyKind::Normal]),
            ("my_app", "tempfile 3.0.0", vec![DependencyKind::Development]),
            ("my_lib", "serde 1.0.0", vec![DependencyKind::Normal]),
        ]
    );
}

#[test]
fn code_names_map_to_package_ids_per_member() {
    let result = analyze_externals(&workspace(), false);
    let app = result.crate_name_map.get("my_app").expect("my_app has externals");
    assert_eq!(app.get("serde").map(String::as_str), Some("serde 1.0.0"));
    assert_eq!(app.get("tempfile").map(String::as_str), Some("tempfile 3.0.0"));
    assert!(app.get("cc").is_none());
    assert!(app.get("my_lib").is_none());
    let lib = result.crate_name_map.get("my_lib").expect("my_lib has externals");
    assert_eq!(lib.len(), 1);
    assert!(result.crate_name_map.get("serde").is_none());
}

#[test]
fn metadata_without_resolve_gives_nothing() {
    let mut metadata = workspace();
    metadata.resolve = None;
    let result = analyze_externals(&metadata, false);
    assert!(result.crates.is_empty());
    assert!(result.workspace_deps.is_empty());
    assert!(result.crate_name_map.is_empty());
}

#[test]
fn a_renamed_dependency_goes_by_its_code_name() {
    let metadata = Metadata {
        packages: vec![
            package("app 0.1.0", "app", "0.1.0", false),
            package("serde_json 1.0.0", "serde_json", "1.0.0", true),
        ],
        workspace_members: vec!["app 0.1.0".to_string()],
        resolve: Some(Resolve {
            nodes: vec![node(
                "app 0.1.0",
                vec![dep("json", "serde_json 1.0.0", &[DependencyKind::Normal])],
            )],
        }),
    };
    let result = analyze_externals(&metadata, false);
    let app = result.crate_name_map.get("app").unwrap();
    assert_eq!(app.get("json").map(String::as_str), Some("serde_json 1.0.0"));
    assert_eq!(result.crates[0].version, "1.0.0");
}

#[test]
fn transitive_mode_follows_external_deps_between_external_crates() {
    let result = analyze_externals(&workspace(), true);
    let edges: Vec<(&str, &str, Vec<DependencyKind>)> = result
        .external_deps
        .iter()
        .map(|d| (d.from_pkg_id.as_str(), d.to_pkg_id.as_str(), d.dep_kinds.clone()))
        .collect();
    assert_eq!(
        edges,
        vec![("serde 1.0.0", "serde_derive 1.0.0", vec![DependencyKind::Normal])]
    );
    let ids: Vec<&str> = result.crates.iter().map(|c| c.package_id.as_str()).collect();
    assert_eq!(ids, vec!["serde 1.0.0", "tempfile 3.0.0", "serde_derive 1.0.0"]);
    assert_eq!(result.crates[2].name, "serde_derive");
    assert_eq!(result.workspace_deps.len(), analyze_externals(&workspace(), false).workspace_deps.len());
}

#[test]
fn transitive_mode_walks_chains_of_external_crates() {
    let mut metadata = workspace();
    metadata.packages.push(package("proc-macro2 1.0.0", "proc-macro2", "1.0.0", true));
    if let Some(resolve) = metadata.resolve.as_mut() {
        resolve.nodes.push(node(
            "serde_derive 1.0.0",
            vec![
                dep("proc_macro2", "proc-macro2 1.0.0", &[DependencyKind::Normal]),
                dep("cc", "cc 1.0.0", &[DependencyKind::Build]),
            ],
        ));
    }
    let result = analyze_externals(&metadata, true);
    let edges: Vec<(&str, &str)> = result
        .external_deps
        .iter()
        .map(|d| (d.from_pkg_id.as_str(), d.to_pkg_id.as_str()))
        .collect();
    assert_eq!(
        edges,
        vec![("serde 1.0.0", "serde_derive 1.0.0"), ("serde_derive 1.0.0", "proc-macro2 1.0.0")]
    );
    assert!(result.crates.iter().any(|c| c.package_id == "proc-macro2 1.0.0"));
    assert!(!result.crates.iter().any(|c| c.package_id == "cc 1.0.0"));
}
