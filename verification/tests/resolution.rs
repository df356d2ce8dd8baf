use cargo_arc::analyze::bindings::{BindingRegions, FileBindings};
use cargo_arc::analyze::categories::PathPosition;
use cargo_arc::analyze::exports::{ModuleExportInfo, ReExportMap, ReExportTarget};
use cargo_arc::analyze::file_deps::{parse_path_ref_dependencies, PathRef};
use cargo_arc::analyze::resolution::{
    find_longest_module_prefix, parse_bare_module_import, resolve_relative_path,
    resolve_single_path, ResolutionContext,
};
use cargo_arc::collections::{StrMap, StrSet};
use cargo_arc::model::{
    normalize_crate_name, DefKind, Definition, DependencyRef, EdgeContext, TestKind, UsageKind,
};

fn set(items: &[&str]) -> StrSet {
    let mut s = StrSet::new();
    for item in items {
        s.insert(item.to_string());
    }
    s
}

fn sets(entries: &[(&str, &[&str])]) -> StrMap<StrSet> {
    let mut m = StrMap::new();
    for (name, items) in entries {
        m.insert(name.to_string(), set(items));
    }
    m
}

/// What a resolution context borrows, owned in one place.
struct Fixture {
    current_crate: String,
    workspace_crates: StrSet,
    source_file: String,
    module_paths: StrMap<StrSet>,
    crate_exports: StrMap<StrSet>,
    current_module_path: String,
    reexport_map: ReExportMap,
    external_crate_names: StrMap<String>,
}

impl Fixture {
    fn new(source_file: &str) -> Self {
        Fixture {
            current_crate: "my_crate".to_string(),
            workspace_crates: StrSet::new(),
            source_file: source_file.to_string(),
            module_paths: StrMap::new(),
            crate_exports: StrMap::new(),
            current_module_path: String::new(),
            reexport_map: ReExportMap::new(),
            external_crate_names: StrMap::new(),
        }
    }

    fn ctx(&self) -> ResolutionContext<'_> {
        ResolutionContext {
            current_crate: &self.current_crate,
            workspace_crates: &self.workspace_crates,
            source_file: &self.source_file,
            all_module_paths: &self.module_paths,
            crate_exports: &self.crate_exports,
            current_module_path: &self.current_module_path,
            reexport_map: &self.reexport_map,
            external_crate_names: &self.external_crate_names,
        }
    }
}

/// Resolve path references in the file's own region against a file that
/// binds nothing.
fn resolve_root_refs(
    paths: Vec<(String, usize, EdgeContext, usize)>,
    ctx: &ResolutionContext,
) -> Vec<DependencyRef> {
    let refs: Vec<PathRef> = paths
        .into_iter()
        .map(|(path, line, context, inline_depth)| PathRef {
            path,
            line,
            context,
            inline_depth,
            region: 0,
            position: PathPosition::Value,
            in_macro: false,
        })
        .collect();
    let bindings = FileBindings::new(BindingRegions::new(), StrSet::new());
    parse_path_ref_dependencies(&refs, ctx, &bindings)
}

fn test_dep(crate_name: &str, module: &str, item: Option<&str>) -> DependencyRef {
    DependencyRef {
        target_crate: crate_name.to_string(),
        target_module: module.to_string(),
        target_item: item.map(String::from),
        source_file: "src/lib.rs".to_string(),
        line: 1,
        context: EdgeContext::production(),
        via_reexport: false,
        uses: Vec::new(),
    }
}

fn struct_def() -> Definition {
    Definition {
        kind: DefKind::Struct,
        line: 1,
    }
}

fn target(module: &str, original_name: &str) -> ReExportTarget {
    ReExportTarget {
        module: module.to_string(),
        original_name: original_name.to_string(),
    }
}

fn one_crate(name: &str, modules: Vec<(&str, ModuleExportInfo)>) -> ReExportMap {
    let mut crate_exports = StrMap::new();
    for (module, info) in modules {
        crate_exports.insert(module.to_string(), info);
    }
    ReExportMap::from_entries(vec![(name.to_string(), crate_exports)])
}

#[test]
fn tests_test_normalize_crate_name() {
    assert_eq!(normalize_crate_name("my-lib"), "my_lib");
    assert_eq!(normalize_crate_name("already_valid"), "already_valid");
    assert_eq!(normalize_crate_name("a-b-c"), "a_b_c");
}

#[test]
fn test_find_longest_prefix_submodule() {
    let paths = set(&["analyze", "analyze::use_parser"]);
    let (prefix, len) = find_longest_module_prefix(&["analyze", "use_parser", "normalize"], &paths);
    assert_eq!(prefix, "analyze::use_parser");
    assert_eq!(len, 2);
}

#[test]
fn test_find_longest_prefix_parent_only() {
    let paths = set(&["analyze"]);
    let (prefix, len) = find_longest_module_prefix(&["analyze", "SomeItem"], &paths);
    assert_eq!(prefix, "analyze");
    assert_eq!(len, 1);
}

#[test]
fn test_find_longest_prefix_no_match() {
    let paths = set(&["analyze"]);
    let (prefix, len) = find_longest_module_prefix(&["unknown", "item"], &paths);
    assert_eq!(prefix, "unknown");
    assert_eq!(len, 1);
}

#[test]
fn test_find_longest_prefix_single_segment() {
    let paths = set(&["graph"]);
    let (prefix, len) = find_longest_module_prefix(&["graph"], &paths);
    assert_eq!(prefix, "graph");
    assert_eq!(len, 1);
}

#[test]
fn test_find_longest_prefix_empty_module_paths() {
    let paths = StrSet::new();
    let (prefix, len) = find_longest_module_prefix(&["analyze", "foo"], &paths);
    assert_eq!(prefix, "analyze");
    assert_eq!(len, 1);
}

#[test]
fn test_super_basic() {
    let result = resolve_relative_path("super::foo", "a::b", 0);
    assert_eq!(result, Some("a::foo".to_string()));
}

#[test]
fn test_super_from_root() {
    let result = resolve_relative_path("super::foo", "", 0);
    assert_eq!(result, None);
}

#[test]
fn test_super_super() {
    let result = resolve_relative_path("super::super::foo", "a::b::c", 0);
    assert_eq!(result, Some("a::foo".to_string()));
}

#[test]
fn test_super_too_many() {
    let result = resolve_relative_path("super::super::foo", "a", 0);
    assert_eq!(result, None);
}

#[test]
fn test_self_basic() {
    let result = resolve_relative_path("self::child", "render", 0);
    assert_eq!(result, Some("render::child".to_string()));
}

#[test]
fn test_self_from_root() {
    let result = resolve_relative_path("self::foo", "", 0);
    assert_eq!(result, Some("foo".to_string()));
}

#[test]
fn test_super_inside_inline_mod_ignored() {
    let result = resolve_relative_path("super::*", "analyze::filtering", 1);
    assert_eq!(result, None);
}

#[test]
fn test_super_super_from_inline_mod() {
    let result = resolve_relative_path("super::super::sibling", "analyze::filtering", 1);
    assert_eq!(result, Some("analyze::sibling".to_string()));
}

#[test]
fn test_self_inside_inline_mod_ignored() {
    let result = resolve_relative_path("self::helper", "analyze::filtering", 1);
    assert_eq!(result, None);
}

#[test]
fn resolve_noop_without_target_item() {
    let map = ReExportMap::new();
    let mut dep = test_dep("my_crate", "render", None);
    cargo_arc::analyze::exports::resolve_reexport(&mut dep, &map, "");
    assert_eq!(dep.target_module, "render");
}

#[test]
fn resolve_noop_when_crate_not_in_map() {
    let map = ReExportMap::new();
    let mut dep = test_dep("my_crate", "render", Some("Widget"));
    cargo_arc::analyze::exports::resolve_reexport(&mut dep, &map, "");
    assert_eq!(dep.target_module, "render");
}

#[test]
fn resolve_noop_when_own_definition() {
    let mut module_info = ModuleExportInfo::new();
    module_info
        .definitions
        .insert("Widget".to_string(), struct_def());
    let map = one_crate("my_crate", vec![("render", module_info)]);

    let mut dep = test_dep("my_crate", "render", Some("Widget"));
    cargo_arc::analyze::exports::resolve_reexport(&mut dep, &map, "");
    assert_eq!(dep.target_module, "render");
}

#[test]
fn resolve_explicit_reexport() {
    let mut m_info = ModuleExportInfo::new();
    m_info
        .explicit_reexports
        .insert("Widget".to_string(), target("render::elements", "Widget"));
    let mut n_info = ModuleExportInfo::new();
    n_info.definitions.insert("Widget".to_string(), struct_def());
    let map = one_crate(
        "my_crate",
        vec![("render", m_info), ("render::elements", n_info)],
    );

    let mut dep = test_dep("my_crate", "render", Some("Widget"));
    cargo_arc::analyze::exports::resolve_reexport(&mut dep, &map, "");
    assert_eq!(dep.target_module, "render::elements");
}

#[test]
fn resolve_transitive_chain() {
    let mut m_info = ModuleExportInfo::new();
    m_info
        .explicit_reexports
        .insert("Widget".to_string(), target("middle", "Widget"));
    let mut n_info = ModuleExportInfo::new();
    n_info
        .explicit_reexports
        .insert("Widget".to_string(), target("origin", "Widget"));
    let mut o_info = ModuleExportInfo::new();
    o_info.definitions.insert("Widget".to_string(), struct_def());
    let map = one_crate(
        "my_crate",
        vec![("root", m_info), ("middle", n_info), ("origin", o_info)],
    );

    let mut dep = test_dep("my_crate", "root", Some("Widget"));
    cargo_arc::analyze::exports::resolve_reexport(&mut dep, &map, "");
    assert_eq!(dep.target_module, "origin");
}

#[test]
fn resolve_rename_chain() {
    let mut m_info = ModuleExportInfo::new();
    m_info
        .explicit_reexports
        .insert("Alias".to_string(), target("origin", "Original"));
    let mut o_info = ModuleExportInfo::new();
    o_info
        .definitions
        .insert("Original".to_string(), struct_def());
    let map = one_crate("my_crate", vec![("facade", m_info), ("origin", o_info)]);

    let mut dep = test_dep("my_crate", "facade", Some("Alias"));
    cargo_arc::analyze::exports::resolve_reexport(&mut dep, &map, "");
    assert_eq!(dep.target_module, "origin");
}

#[test]
fn resolve_glob_reexport() {
    let mut m_info = ModuleExportInfo::new();
    m_info.glob_sources.push("elements".to_string());
    let mut n_info = ModuleExportInfo::new();
    n_info.definitions.insert("Widget".to_string(), struct_def());
    let map = one_crate("my_crate", vec![("render", m_info), ("elements", n_info)]);

    let mut dep = test_dep("my_crate", "render", Some("Widget"));
    cargo_arc::analyze::exports::resolve_reexport(&mut dep, &map, "");
    assert_eq!(dep.target_module, "elements");
}

#[test]
fn resolve_glob_then_explicit() {
    let mut m_info = ModuleExportInfo::new();
    m_info.glob_sources.push("middle".to_string());
    let mut n_info = ModuleExportInfo::new();
    n_info
        .explicit_reexports
        .insert("Widget".to_string(), target("origin", "Widget"));
    let mut o_info = ModuleExportInfo::new();
    o_info.definitions.insert("Widget".to_string(), struct_def());
    let map = one_crate(
        "my_crate",
        vec![("facade", m_info), ("middle", n_info), ("origin", o_info)],
    );

    let mut dep = test_dep("my_crate", "facade", Some("Widget"));
    cargo_arc::analyze::exports::resolve_reexport(&mut dep, &map, "");
    assert_eq!(dep.target_module, "origin");
}

#[test]
fn resolve_cycle_guard() {
    let mut a_info = ModuleExportInfo::new();
    a_info
        .explicit_reexports
        .insert("Widget".to_string(), target("b", "Widget"));
    let mut b_info = ModuleExportInfo::new();
    b_info
        .explicit_reexports
        .insert("Widget".to_string(), target("a", "Widget"));
    let map = one_crate("my_crate", vec![("a", a_info), ("b", b_info)]);

    let mut dep = test_dep("my_crate", "a", Some("Widget"));
    cargo_arc::analyze::exports::resolve_reexport(&mut dep, &map, "");
    assert_eq!(dep.target_module, "a");
}

#[test]
fn resolve_cross_crate() {
    let mut root_info = ModuleExportInfo::new();
    root_info
        .explicit_reexports
        .insert("Config".to_string(), target("settings", "Config"));
    let mut settings_info = ModuleExportInfo::new();
    settings_info
        .definitions
        .insert("Config".to_string(), struct_def());
    let map = one_crate(
        "other_crate",
        vec![("", root_info), ("settings", settings_info)],
    );

    let mut dep = test_dep("other_crate", "", Some("Config"));
    cargo_arc::analyze::exports::resolve_reexport(&mut dep, &map, "");
    assert_eq!(dep.target_module, "settings");
}

#[test]
fn resolve_private_use_for_descendant() {
    let mut wgsl_info = ModuleExportInfo::new();
    wgsl_info
        .private_uses
        .insert("Error".to_string(), target("front::wgsl::error", "Error"));
    let mut error_info = ModuleExportInfo::new();
    error_info.definitions.insert(
        "Error".to_string(),
        Definition {
            kind: DefKind::Enum,
            line: 1,
        },
    );
    let map = one_crate(
        "my_crate",
        vec![("front::wgsl", wgsl_info), ("front::wgsl::error", error_info)],
    );

    let mut dep = test_dep("my_crate", "front::wgsl", Some("Error"));
    cargo_arc::analyze::exports::resolve_reexport(
        &mut dep,
        &map,
        "front::wgsl::parse::directive::enable_extension",
    );
    assert_eq!(dep.target_module, "front::wgsl::error");
}

#[test]
fn resolve_private_use_not_for_non_descendant() {
    let mut wgsl_info = ModuleExportInfo::new();
    wgsl_info
        .private_uses
        .insert("Error".to_string(), target("front::wgsl::error", "Error"));
    let map = one_crate("my_crate", vec![("front::wgsl", wgsl_info)]);

    let mut dep = test_dep("my_crate", "front::wgsl", Some("Error"));
    cargo_arc::analyze::exports::resolve_reexport(&mut dep, &map, "back::spv");
    assert_eq!(dep.target_module, "front::wgsl");
}

/// A holder with a private glob on `source`, and `source` defining `item`.
fn private_glob_modules(
    holder: &str,
    source: &str,
    item: &str,
) -> Vec<(String, ModuleExportInfo)> {
    let mut holder_info = ModuleExportInfo::new();
    holder_info.private_glob_sources.push(source.to_string());
    let mut source_info = ModuleExportInfo::new();
    source_info.definitions.insert(item.to_string(), struct_def());
    vec![
        (holder.to_string(), holder_info),
        (source.to_string(), source_info),
    ]
}

fn map_of(modules: Vec<(String, ModuleExportInfo)>) -> ReExportMap {
    let mut crate_exports = StrMap::new();
    for (module, info) in modules {
        crate_exports.insert(module, info);
    }
    ReExportMap::from_entries(vec![("my_crate".to_string(), crate_exports)])
}

#[test]
fn resolve_private_glob_for_descendant() {
    let map = map_of(private_glob_modules("api", "api::actions", "Mapping"));

    let mut dep = test_dep("my_crate", "api", Some("Mapping"));
    cargo_arc::analyze::exports::resolve_reexport(&mut dep, &map, "api::buffer");
    assert_eq!(dep.target_module, "api::actions");
}

#[test]
fn resolve_private_glob_not_for_non_descendant() {
    let map = map_of(private_glob_modules("api", "api::actions", "Mapping"));

    let mut dep = test_dep("my_crate", "api", Some("Mapping"));
    cargo_arc::analyze::exports::resolve_reexport(&mut dep, &map, "backend");
    assert_eq!(dep.target_module, "api");
}

#[test]
fn resolve_private_glob_chain_for_descendant() {
    let mut modules = private_glob_modules("api", "api::actions", "Mapping");
    let mut buffer_info = ModuleExportInfo::new();
    buffer_info.private_glob_sources.push("api".to_string());
    modules.push(("api::buffer".to_string(), buffer_info));
    let map = map_of(modules);

    let mut dep = test_dep("my_crate", "api::buffer", Some("Mapping"));
    cargo_arc::analyze::exports::resolve_reexport(&mut dep, &map, "api::buffer::view");
    assert_eq!(dep.target_module, "api::actions");
}

#[test]
fn resolve_pub_glob_carries_none_of_the_sources_private_globs() {
    let mut modules = private_glob_modules("dispatch", "core", "Mapping");
    let mut custom_info = ModuleExportInfo::new();
    custom_info.glob_sources.push("dispatch".to_string());
    modules[0]
        .1
        .private_glob_sources
        .push("custom".to_string());
    modules.push(("custom".to_string(), custom_info));
    let map = map_of(modules);

    let mut dep = test_dep("my_crate", "custom", Some("Mapping"));
    cargo_arc::analyze::exports::resolve_reexport(&mut dep, &map, "dispatch");
    assert_eq!(dep.target_module, "custom");
}

#[test]
fn is_empty_when_default() {
    let info = ModuleExportInfo::new();
    assert!(info.is_empty());
}

#[test]
fn from_iterator_and_deref() {
    let mut inner = StrMap::new();
    inner.insert("render".to_string(), ModuleExportInfo::new());
    let map = ReExportMap::from_entries(vec![("my_crate".to_string(), inner)]);
    assert!(map.contains_key("my_crate"));
    assert!(map.get("my_crate").unwrap().contains_key("render"));
}

#[test]
fn test_bare_module_simple() {
    let mut f = Fixture::new("src/lib.rs");
    f.module_paths = sets(&[("my_crate", &["cli"])]);
    let ctx = f.ctx();
    let dep = parse_bare_module_import(&ctx, "cli::Args", 1, &EdgeContext::production());
    let dep = dep.expect("should parse bare module import");
    assert_eq!(dep.target_crate, "my_crate");
    assert_eq!(dep.target_module, "cli");
    assert_eq!(dep.target_item, Some("Args".to_string()));
}

#[test]
fn test_bare_module_no_match() {
    let mut f = Fixture::new("src/lib.rs");
    f.module_paths = sets(&[("my_crate", &["cli"])]);
    let ctx = f.ctx();
    let dep = parse_bare_module_import(&ctx, "serde::Serialize", 1, &EdgeContext::production());
    assert!(dep.is_none(), "external crate should not match");
}

#[test]
fn test_bare_module_deep_path() {
    let mut f = Fixture::new("src/lib.rs");
    f.module_paths = sets(&[("my_crate", &["analyze", "analyze::use_parser"])]);
    let ctx = f.ctx();
    let dep = parse_bare_module_import(
        &ctx,
        "analyze::use_parser::normalize",
        1,
        &EdgeContext::production(),
    );
    let dep = dep.expect("should parse deep bare module import");
    assert_eq!(dep.target_crate, "my_crate");
    assert_eq!(dep.target_module, "analyze::use_parser");
    assert_eq!(dep.target_item, Some("normalize".to_string()));
}

#[test]
fn test_bare_module_module_only() {
    let mut f = Fixture::new("src/lib.rs");
    f.module_paths = sets(&[("my_crate", &["cli"])]);
    let ctx = f.ctx();
    let dep = parse_bare_module_import(&ctx, "cli", 1, &EdgeContext::production());
    let dep = dep.expect("should parse module-only bare import");
    assert_eq!(dep.target_crate, "my_crate");
    assert_eq!(dep.target_module, "cli");
    assert!(dep.target_item.is_none());
}

#[test]
fn test_bare_module_child_resolution() {
    let mut f = Fixture::new("src/render/mod.rs");
    f.module_paths = sets(&[("my_crate", &["render", "render::css"])]);
    f.current_module_path = "render".to_string();
    let ctx = f.ctx();
    let dep = parse_bare_module_import(&ctx, "css::render_styles", 1, &EdgeContext::production());
    let dep = dep.expect("should resolve child module");
    assert_eq!(dep.target_crate, "my_crate");
    assert_eq!(dep.target_module, "render::css");
    assert_eq!(dep.target_item, Some("render_styles".to_string()));
}

#[test]
fn test_bare_module_root_still_works() {
    let mut f = Fixture::new("src/lib.rs");
    f.module_paths = sets(&[("my_crate", &["cli"])]);
    let ctx = f.ctx();
    let dep = parse_bare_module_import(&ctx, "cli::Args", 1, &EdgeContext::production());
    let dep = dep.expect("should parse bare module from root");
    assert_eq!(dep.target_module, "cli");
    assert_eq!(dep.target_item, Some("Args".to_string()));
}

#[test]
fn test_bare_module_deeply_nested() {
    let mut f = Fixture::new("src/a/b/mod.rs");
    f.module_paths = sets(&[("my_crate", &["a", "a::b", "a::b::sub"])]);
    f.current_module_path = "a::b".to_string();
    let ctx = f.ctx();
    let dep = parse_bare_module_import(&ctx, "sub::Item", 1, &EdgeContext::production());
    let dep = dep.expect("should resolve deeply nested child");
    assert_eq!(dep.target_module, "a::b::sub");
    assert_eq!(dep.target_item, Some("Item".to_string()));
}

#[test]
fn test_parse_path_refs_workspace_crate() {
    let mut f = Fixture::new("src/main.rs");
    f.workspace_crates = set(&["other_crate"]);
    f.module_paths = sets(&[("other_crate", &["module"])]);
    let paths = vec![(
        "other_crate::module::item".to_string(),
        5,
        EdgeContext::production(),
        0,
    )];
    let deps = resolve_root_refs(paths, &f.ctx());
    assert_eq!(deps.len(), 1, "should resolve workspace crate path: {deps:?}");
    assert_eq!(deps[0].target_crate, "other_crate");
    assert_eq!(deps[0].target_module, "module");
    assert_eq!(deps[0].target_item, Some("item".to_string()));
    assert_eq!(deps[0].line, 5);
}

#[test]
fn test_parse_path_refs_crate_local() {
    let mut f = Fixture::new("src/main.rs");
    f.module_paths = sets(&[("my_crate", &["module"])]);
    let paths = vec![(
        "crate::module::item".to_string(),
        3,
        EdgeContext::production(),
        0,
    )];
    let deps = resolve_root_refs(paths, &f.ctx());
    assert_eq!(deps.len(), 1, "should resolve crate-local path: {deps:?}");
    assert_eq!(deps[0].target_crate, "my_crate");
    assert_eq!(deps[0].target_module, "module");
    assert_eq!(deps[0].target_item, Some("item".to_string()));
}

#[test]
fn test_parse_path_refs_bare_module() {
    let mut f = Fixture::new("src/lib.rs");
    f.module_paths = sets(&[("my_crate", &["cli"])]);
    let paths = vec![("cli::Args".to_string(), 1, EdgeContext::production(), 0)];
    let deps = resolve_root_refs(paths, &f.ctx());
    assert_eq!(deps.len(), 1, "should resolve bare module path: {deps:?}");
    assert_eq!(deps[0].target_crate, "my_crate");
    assert_eq!(deps[0].target_module, "cli");
    assert_eq!(deps[0].target_item, Some("Args".to_string()));
}

#[test]
fn test_parse_path_refs_unknown_skipped() {
    let f = Fixture::new("src/lib.rs");
    let paths = vec![
        ("std::io::Read".to_string(), 1, EdgeContext::production(), 0),
        ("anyhow::Result".to_string(), 2, EdgeContext::production(), 0),
        ("serde::Serialize".to_string(), 3, EdgeContext::production(), 0),
    ];
    let deps = resolve_root_refs(paths, &f.ctx());
    assert!(deps.is_empty(), "unknown paths should be skipped: {deps:?}");
}

#[test]
fn test_parse_path_refs_entry_point() {
    let mut f = Fixture::new("src/main.rs");
    f.workspace_crates = set(&["other_crate"]);
    f.crate_exports = sets(&[("other_crate", &["MyStruct"])]);
    let paths = vec![(
        "other_crate::MyStruct".to_string(),
        7,
        EdgeContext::production(),
        0,
    )];
    let deps = resolve_root_refs(paths, &f.ctx());
    assert_eq!(deps.len(), 1, "should resolve entry-point path: {deps:?}");
    assert_eq!(deps[0].target_crate, "other_crate");
    assert_eq!(deps[0].target_module, "");
    assert_eq!(deps[0].target_item, Some("MyStruct".to_string()));
}

#[test]
fn test_parse_path_refs_dedup() {
    let mut f = Fixture::new("src/main.rs");
    f.workspace_crates = set(&["other_crate"]);
    f.module_paths = sets(&[("other_crate", &["module"])]);
    let paths = vec![
        (
            "other_crate::module::item".to_string(),
            5,
            EdgeContext::production(),
            0,
        ),
        (
            "other_crate::module::item".to_string(),
            10,
            EdgeContext::production(),
            0,
        ),
    ];
    let deps = resolve_root_refs(paths, &f.ctx());
    assert_eq!(deps.len(), 1, "duplicate paths should be deduped: {deps:?}");
}

#[test]
fn test_same_target_different_context_not_deduped_path_ref() {
    let mut f = Fixture::new("src/main.rs");
    f.workspace_crates = set(&["other_crate"]);
    f.module_paths = sets(&[("other_crate", &["module"])]);
    let paths = vec![
        (
            "other_crate::module::item".to_string(),
            5,
            EdgeContext::production(),
            0,
        ),
        (
            "other_crate::module::item".to_string(),
            10,
            EdgeContext::test(TestKind::Unit),
            0,
        ),
    ];
    let deps = resolve_root_refs(paths, &f.ctx());
    assert_eq!(
        deps.len(),
        2,
        "prod + test on same target must not be deduped: {deps:?}"
    );
    assert!(deps.iter().any(|d| d.context == EdgeContext::production()));
    assert!(deps
        .iter()
        .any(|d| d.context == EdgeContext::test(TestKind::Unit)));
}

#[test]
fn test_same_target_same_context_still_deduped() {
    let mut f = Fixture::new("src/main.rs");
    f.workspace_crates = set(&["other_crate"]);
    f.module_paths = sets(&[("other_crate", &["module"])]);
    let paths = vec![
        (
            "other_crate::module::item".to_string(),
            5,
            EdgeContext::production(),
            0,
        ),
        (
            "other_crate::module::item".to_string(),
            10,
            EdgeContext::production(),
            0,
        ),
    ];
    let deps = resolve_root_refs(paths, &f.ctx());
    assert_eq!(
        deps.len(),
        1,
        "same context same target should still dedup: {deps:?}"
    );
}

#[test]
fn test_dedup_merges_features_path_ref() {
    let mut f = Fixture::new("src/main.rs");
    f.workspace_crates = set(&["other_crate"]);
    f.module_paths = sets(&[("other_crate", &["module"])]);
    let paths = vec![
        (
            "other_crate::module::item".to_string(),
            5,
            EdgeContext {
                kind: UsageKind::Production,
                features: vec!["feat-a".into()],
            },
            0,
        ),
        (
            "other_crate::module::item".to_string(),
            10,
            EdgeContext {
                kind: UsageKind::Production,
                features: vec!["feat-b".into()],
            },
            0,
        ),
    ];
    let deps = resolve_root_refs(paths, &f.ctx());
    assert_eq!(deps.len(), 1, "same target+kind should dedup to one: {deps:?}");
    let mut features = deps[0].context.features.clone();
    features.sort();
    assert_eq!(
        features,
        vec!["feat-a".to_string(), "feat-b".to_string()],
        "features should be merged: {features:?}"
    );
}

#[test]
fn path_ref_resolved_via_reexport_map() {
    let mut f = Fixture::new("src/lib.rs");
    f.module_paths = sets(&[("my_crate", &["parent", "parent::child"])]);
    let mut parent_info = ModuleExportInfo::new();
    parent_info
        .explicit_reexports
        .insert("Config".to_string(), target("parent::child", "Config"));
    let mut child_info = ModuleExportInfo::new();
    child_info
        .definitions
        .insert("Config".to_string(), struct_def());
    f.reexport_map = one_crate(
        "my_crate",
        vec![("parent", parent_info), ("parent::child", child_info)],
    );
    let paths = vec![(
        "crate::parent::Config".to_string(),
        5,
        EdgeContext::production(),
        0,
    )];
    let deps = resolve_root_refs(paths, &f.ctx());
    assert_eq!(deps.len(), 1);
    assert_eq!(
        deps[0].target_module, "parent::child",
        "path refs should also resolve through re-export"
    );
}

#[test]
fn test_resolve_external_crate_import() {
    let mut f = Fixture::new("src/lib.rs");
    f.external_crate_names
        .insert("serde".to_string(), "serde-pkg-id".to_string());
    let ctx = f.ctx();
    let dep = resolve_single_path(&ctx, "serde::Deserialize", 1, &EdgeContext::production(), 0);
    assert!(dep.is_some(), "should resolve external crate import");
    let dep = dep.unwrap();
    assert_eq!(dep.target_crate, "serde");
    assert_eq!(dep.target_item, Some("Deserialize".to_string()));
}

#[test]
fn test_resolve_external_does_not_shadow_workspace() {
    let mut f = Fixture::new("src/lib.rs");
    f.workspace_crates = set(&["serde"]);
    f.external_crate_names
        .insert("serde".to_string(), "serde-pkg-id".to_string());
    let ctx = f.ctx();
    let dep = resolve_single_path(&ctx, "serde::Foo", 1, &EdgeContext::production(), 0);
    assert!(dep.is_some());
    let dep = dep.unwrap();
    assert_eq!(dep.target_crate, "serde");
}

#[test]
fn test_resolve_external_no_match() {
    let f = Fixture::new("src/lib.rs");
    let ctx = f.ctx();
    let dep = resolve_single_path(&ctx, "unknown_crate::Foo", 1, &EdgeContext::production(), 0);
    assert!(dep.is_none(), "unknown crate should not resolve");
}

#[test]
fn test_alias_does_not_shadow_real_module() {
    let mut f = Fixture::new("src/consumer.rs");
    f.module_paths = sets(&[("my_crate", &["parent", "parent::child", "child"])]);
    let paths = vec![("child::Item".to_string(), 20, EdgeContext::production(), 0)];
    let deps = resolve_root_refs(paths, &f.ctx());
    assert_eq!(deps.len(), 1, "top-level module still resolves: {deps:?}");
    assert_eq!(deps[0].target_module, "child");
}
