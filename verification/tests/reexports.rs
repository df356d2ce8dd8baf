use cargo_arc::analyze::exports::ModuleExportInfo;
use cargo_arc::analyze::mod_resolver::{child_resolve_dir, extract_mod_declarations, mod_path_candidates};
use cargo_arc::analyze::reexports::{collect_crate_reexports, FileItem, ModuleFile};
use cargo_arc::analyze::use_tree::{UseTree, Visibility};
use cargo_arc::analyze::syntax::{parse_file_items, parse_mod_items};
use cargo_arc::collections::{StrMap, StrSet};
use cargo_arc::model::DefKind;

const ROOT: &str = "/t";

/// The module files of a crate written as `(path, source)` pairs, found by
/// following `mod` declarations from `src/lib.rs`.
fn walk(files: &[(&str, &str)], file: &str, module: &str, out: &mut Vec<ModuleFile>) {
    let source = files
        .iter()
        .find(|(p, _)| format!("{ROOT}/{p}") == file)
        .map(|(_, s)| *s)
        .unwrap();
    if let Some(items) = parse_file_items(source) {
        out.push(ModuleFile { module: module.to_string(), source_file: file.to_string(), items });
    }
    let dir = child_resolve_dir(file, module.is_empty());
    let exists = |c: &String| files.iter().any(|(p, _)| &format!("{ROOT}/{p}") == c);
    for decl in extract_mod_declarations(&parse_mod_items(source).unwrap(), false) {
        let (flat, nested) = mod_path_candidates(&dir, &decl.name);
        let child = if exists(&flat) { flat } else if exists(&nested) { nested } else { continue };
        let child_module = if module.is_empty() { decl.name.clone() } else { format!("{module}::{}", decl.name) };
        walk(files, &child, &child_module, out);
    }
}

fn collect(files: &[(&str, &str)], paths: &[&str]) -> StrMap<ModuleExportInfo> {
    let mut modules = Vec::new();
    walk(files, &format!("{ROOT}/src/lib.rs"), "", &mut modules);
    let mut set = StrSet::new();
    for p in paths {
        set.insert(p.to_string());
    }
    let mut mp = StrMap::new();
    mp.insert("test_crate".to_string(), set);
    collect_crate_reexports("test_crate", &modules, &mp, &StrSet::new(), &StrMap::new())
}

fn set_of(s: &StrSet) -> Vec<String> {
    let mut v = s.items.clone();
    v.sort();
    v
}

#[test]
fn collects_pub_use_sibling_item() {
    let result = collect(
        &[
            ("src/lib.rs", "pub mod parent;"),
            ("src/parent/mod.rs", "pub mod sibling;\npub use sibling::Item;"),
            ("src/parent/sibling.rs", "pub struct Item;"),
        ],
        &["parent", "parent::sibling"],
    );
    let parent_info = result.get("parent").expect("parent should have exports");
    let reexport = parent_info.explicit_reexports.get("Item").expect("Item should be re-exported");
    assert_eq!(reexport.module, "parent::sibling");
    assert_eq!(reexport.original_name, "Item");
}

#[test]
fn collects_pub_use_crate_module_item() {
    let result = collect(
        &[("src/lib.rs", "pub mod model;\npub use crate::model::Config;"), ("src/model.rs", "pub struct Config;")],
        &["model"],
    );
    let root_info = result.get("").expect("root should have exports");
    let reexport = root_info.explicit_reexports.get("Config").expect("Config should be re-exported");
    assert_eq!(reexport.module, "model");
    assert_eq!(reexport.original_name, "Config");
}

#[test]
fn collects_pub_use_super_sibling_item() {
    let result = collect(
        &[
            ("src/lib.rs", "pub mod parent;"),
            ("src/parent/mod.rs", "pub mod sibling;\npub mod child;"),
            ("src/parent/sibling.rs", "pub struct Item;"),
            ("src/parent/child.rs", "pub use super::sibling::Item;"),
        ],
        &["parent", "parent::sibling", "parent::child"],
    );
    let child_info = result.get("parent::child").expect("child should have exports");
    let reexport = child_info.explicit_reexports.get("Item").expect("Item should be re-exported");
    assert_eq!(reexport.module, "parent::sibling");
    assert_eq!(reexport.original_name, "Item");
}

#[test]
fn collects_pub_use_glob() {
    let result = collect(
        &[
            ("src/lib.rs", "pub mod render;"),
            ("src/render/mod.rs", "pub mod elements;\npub use elements::*;"),
            ("src/render/elements.rs", "pub struct Widget;"),
        ],
        &["render", "render::elements"],
    );
    let render_info = result.get("render").expect("render should have exports");
    assert!(
        render_info.glob_sources.contains(&"render::elements".to_string()),
        "glob_sources should contain render::elements, found: {:?}",
        render_info.glob_sources
    );
}

#[test]
fn collects_pub_use_group_import() {
    let result = collect(
        &[
            ("src/lib.rs", "pub mod parent;"),
            ("src/parent/mod.rs", "pub mod sibling;\npub use sibling::{Alpha, Beta};"),
            ("src/parent/sibling.rs", "pub struct Alpha;\npub struct Beta;"),
        ],
        &["parent", "parent::sibling"],
    );
    let parent_info = result.get("parent").expect("parent should have exports");
    assert!(parent_info.explicit_reexports.contains_key("Alpha"), "missing Alpha");
    assert!(parent_info.explicit_reexports.contains_key("Beta"), "missing Beta");
    assert_eq!(parent_info.explicit_reexports.get("Alpha").unwrap().module, "parent::sibling");
    assert_eq!(parent_info.explicit_reexports.get("Beta").unwrap().module, "parent::sibling");
}

#[test]
fn pub_crate_use_captured_private_not() {
    let result = collect(
        &[
            ("src/lib.rs", "pub mod parent;"),
            ("src/parent/mod.rs", "pub mod sibling;\npub(crate) use sibling::Public;\nuse sibling::Private;"),
            ("src/parent/sibling.rs", "pub struct Public;\npub struct Private;"),
        ],
        &["parent", "parent::sibling"],
    );
    let parent_info = result.get("parent").expect("parent should have exports");
    assert!(parent_info.explicit_reexports.contains_key("Public"), "pub(crate) use should be captured");
    assert!(!parent_info.explicit_reexports.contains_key("Private"), "private use should NOT be captured");
}

#[test]
fn private_use_captured_in_private_uses() {
    let result = collect(
        &[
            ("src/lib.rs", "pub mod parent;"),
            ("src/parent/mod.rs", "pub mod sibling;\nuse sibling::Private;"),
            ("src/parent/sibling.rs", "pub struct Private;"),
        ],
        &["parent", "parent::sibling"],
    );
    let parent_info = result.get("parent").expect("parent should have exports");
    let target = parent_info.private_uses.get("Private").expect("private use should be captured in private_uses");
    assert_eq!(target.module, "parent::sibling");
    assert_eq!(target.original_name, "Private");
    assert!(
        !parent_info.explicit_reexports.contains_key("Private"),
        "private use must not leak into explicit_reexports"
    );
}

#[test]
fn private_glob_captured_in_private_glob_sources() {
    let result = collect(
        &[
            ("src/lib.rs", "pub mod parent;"),
            ("src/parent/mod.rs", "pub mod sibling;\nuse sibling::*;"),
            ("src/parent/sibling.rs", "pub struct Private;"),
        ],
        &["parent", "parent::sibling"],
    );
    let parent_info = result.get("parent").expect("parent should have exports");
    assert_eq!(parent_info.private_glob_sources, vec!["parent::sibling".to_string()]);
    assert!(parent_info.glob_sources.is_empty(), "private glob must not leak into glob_sources");
}

#[test]
fn collects_pub_struct_as_definition() {
    let result = collect(
        &[("src/lib.rs", "pub mod module;"), ("src/module.rs", "pub struct Foo;\npub fn helper() {}")],
        &["module"],
    );
    let module_info = result.get("module").expect("module should have exports");
    assert!(module_info.definitions.contains_key("Foo"), "should contain Foo");
    assert!(module_info.definitions.contains_key("helper"), "should contain helper");
}

#[test]
fn definitions_cover_all_matched_item_kinds() {
    let result = collect(
        &[
            ("src/lib.rs", "pub mod module;"),
            (
                "src/module.rs",
                r"
pub fn a_fn() {}
pub struct AStruct;
pub enum AnEnum { V }
pub trait ATrait {}
pub const A_CONST: u8 = 1;
pub static A_STATIC: u8 = 1;
pub type AnAlias = u8;
pub union AUnion { f: u8 }
fn private_fn() {}
struct PrivateStruct;
pub(crate) struct CrateStruct;
pub(super) struct SuperStruct;
pub(in crate::module) struct InPathStruct;
impl AStruct { pub fn method(&self) {} }
",
            ),
        ],
        &["module"],
    );
    let defs = &result.get("module").expect("module info").definitions;
    for (name, kind) in [
        ("a_fn", DefKind::Fn),
        ("AStruct", DefKind::Struct),
        ("AnEnum", DefKind::Enum),
        ("ATrait", DefKind::Trait),
        ("A_CONST", DefKind::Const),
        ("A_STATIC", DefKind::Static),
        ("AnAlias", DefKind::Type),
        ("CrateStruct", DefKind::Struct),
        ("SuperStruct", DefKind::Struct),
    ] {
        assert_eq!(defs.get(name).map(|d| d.kind), Some(kind), "wrong kind for {name}");
    }
    for name in ["AUnion", "private_fn", "PrivateStruct", "InPathStruct", "method", "V"] {
        assert!(!defs.contains_key(name), "unexpected {name}");
    }
}

#[test]
fn definitions_carry_the_line_of_the_defining_item() {
    let result = collect(
        &[
            ("src/lib.rs", "pub mod module;"),
            ("src/module.rs", "//! Module doc\n\npub fn a_fn() {}\n\n#[derive(Debug)]\npub struct AStruct;\n"),
        ],
        &["module"],
    );
    let defs = &result.get("module").expect("module info").definitions;
    assert_eq!(defs.get("a_fn").map(|d| d.line), Some(3));
    assert_eq!(defs.get("AStruct").map(|d| d.line), Some(5));
}

#[test]
fn definitions_skip_inline_mod_bodies() {
    let result = collect(
        &[("src/lib.rs", "pub mod module;"), ("src/module.rs", "pub struct Outer;\npub mod inner { pub struct Inner; }")],
        &["module", "module::inner"],
    );
    let module_info = result.get("module").expect("module info");
    assert!(module_info.definitions.contains_key("Outer"));
    assert!(!module_info.definitions.contains_key("Inner"));
    assert!(result.get("module::inner").is_none(), "inline mod produces no entry");
}

#[test]
fn collects_pub_use_rename() {
    let result = collect(
        &[
            ("src/lib.rs", "pub mod parent;"),
            ("src/parent/mod.rs", "pub mod sibling;\npub use sibling::Item as Widget;"),
            ("src/parent/sibling.rs", "pub struct Item;"),
        ],
        &["parent", "parent::sibling"],
    );
    let parent_info = result.get("parent").expect("parent should have exports");
    assert!(!parent_info.explicit_reexports.contains_key("Item"), "should NOT have original name as key");
    let reexport = parent_info.explicit_reexports.get("Widget").expect("Widget should be the re-export key");
    assert_eq!(reexport.module, "parent::sibling");
    assert_eq!(reexport.original_name, "Item");
}

#[test]
fn collects_associated_items_on_the_defining_module() {
    let result = collect(
        &[
            ("src/lib.rs", "pub mod back;"),
            ("src/back/mod.rs", "pub mod writer;\npub mod features;"),
            (
                "src/back/writer.rs",
                "pub enum Mode { Fast, Slow(u8) }\n\
                 pub struct Writer;\n\
                 impl Writer { pub fn new() -> Self { Writer } pub const MAX: u8 = 1; }\n\
                 pub trait Step { fn run(&self); }\n\
                 impl Step for Writer { fn run(&self) {} }",
            ),
            ("src/back/features.rs", "use super::writer::Writer;\nimpl Writer { pub fn write_feature(&self) {} }"),
        ],
        &["back", "back::writer", "back::features"],
    );
    let writer = &result.get("back::writer").unwrap().associated;
    assert_eq!(set_of(&writer.get("Mode").unwrap().variants), vec!["Fast".to_string(), "Slow".to_string()]);
    assert_eq!(
        set_of(&writer.get("Writer").unwrap().fns),
        vec!["new".to_string(), "run".to_string(), "write_feature".to_string()],
        "own impl, trait impl and the sibling file's impl"
    );
    assert_eq!(set_of(&writer.get("Writer").unwrap().consts), vec!["MAX".to_string()]);
    assert_eq!(set_of(&writer.get("Step").unwrap().fns), vec!["run".to_string()]);
    assert!(
        !result.get("back::features").is_some_and(|f| f.associated.contains_key("Writer")),
        "the impl in features is Writer's, not a type of features"
    );
}

#[test]
fn file_items_are_read_in_order_and_unparsable_text_gives_none() {
    let items = parse_file_items("pub(in crate::a) use x::{y as z, *};\nmod m;\nimpl a::B { const C: u8 = 1; }").unwrap();
    assert_eq!(items.len(), 3);
    match &items[0] {
        FileItem::Use { tree, vis } => {
            assert!(matches!(vis, Visibility::Restricted { in_token: true, path } if path == "crate::a"));
            match tree {
                UseTree::Path(x, sub) => {
                    assert_eq!(x, "x");
                    match &**sub {
                        UseTree::Group(g) => {
                            assert_eq!(g.len(), 2);
                            assert!(matches!(&g[0], UseTree::Rename(a, b) if a == "y" && b == "z"));
                            assert!(matches!(&g[1], UseTree::Glob));
                        }
                        other => panic!("unexpected {other:?}"),
                    }
                }
                other => panic!("unexpected {other:?}"),
            }
        }
        other => panic!("unexpected {other:?}"),
    }
    assert!(matches!(&items[1], FileItem::Other));
    match &items[2] {
        FileItem::Impl { self_path, fns, consts } => {
            assert_eq!(self_path.as_deref(), Some(&["a".to_string(), "B".to_string()][..]));
            assert!(fns.is_empty());
            assert_eq!(consts, &vec!["C".to_string()]);
        }
        other => panic!("unexpected {other:?}"),
    }
    assert!(parse_file_items("fn (").is_none());
}
