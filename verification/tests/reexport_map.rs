use cargo_arc::analyze::exports::ModuleExportInfo;
use cargo_arc::analyze::reexports::{collect_crate_reexports, FileItem, ModuleFile};
use cargo_arc::analyze::use_tree::{UseTree, Visibility};
use cargo_arc::collections::{StrMap, StrSet};
use cargo_arc::model::DefKind;

fn path(segments: &[&str], leaf: UseTree) -> UseTree {
    segments
        .iter()
        .rev()
        .fold(leaf, |tree, seg| UseTree::Path(seg.to_string(), Box::new(tree)))
}

fn definition(name: &str, kind: DefKind, line: usize) -> FileItem {
    FileItem::Definition {
        name: name.to_string(),
        kind,
        vis: Visibility::Public,
        line,
        variants: Vec::new(),
        fns: Vec::new(),
        consts: Vec::new(),
    }
}

fn module(module: &str, file: &str, items: Vec<FileItem>) -> ModuleFile {
    ModuleFile { module: module.to_string(), source_file: file.to_string(), items }
}

fn module_paths(paths: &[&str]) -> StrMap<StrSet> {
    let mut set = StrSet::new();
    for p in paths {
        set.insert(p.to_string());
    }
    let mut m = StrMap::new();
    m.insert("my_crate".to_string(), set);
    m
}

fn info<'a>(map: &'a StrMap<ModuleExportInfo>, module: &str) -> &'a ModuleExportInfo {
    map.get(module).unwrap()
}

#[test]
fn a_crate_map_holds_each_exporting_module_and_skips_empty_ones() {
    let modules = vec![
        module(
            "",
            "src/lib.rs",
            vec![FileItem::Use {
                tree: path(&["crate", "widgets"], UseTree::Name("Widget".to_string())),
                vis: Visibility::Public,
            }],
        ),
        module("widgets", "src/widgets.rs", vec![definition("Widget", DefKind::Struct, 3)]),
        module("quiet", "src/quiet.rs", vec![FileItem::Other]),
    ];
    let paths = module_paths(&["widgets", "quiet"]);
    let map = collect_crate_reexports("my-crate", &modules, &paths, &StrSet::new(), &StrMap::new());

    let root = info(&map, "");
    let target = root.explicit_reexports.get("Widget").unwrap();
    assert_eq!(target.module, "widgets");
    assert_eq!(target.original_name, "Widget");
    let widgets = info(&map, "widgets");
    let def = widgets.definitions.get("Widget").unwrap();
    assert_eq!(def.kind, DefKind::Struct);
    assert_eq!(def.line, 3);
    assert!(map.get("quiet").is_none(), "a module that records nothing is left out");
}

#[test]
fn an_impl_written_in_another_module_lands_with_its_type() {
    let modules = vec![
        module("model", "src/model.rs", vec![definition("Config", DefKind::Struct, 1)]),
        module(
            "setup",
            "src/setup.rs",
            vec![
                FileItem::Use {
                    tree: path(&["crate", "model"], UseTree::Name("Config".to_string())),
                    vis: Visibility::Inherited,
                },
                FileItem::Impl {
                    self_path: Some(vec!["Config".to_string()]),
                    fns: vec!["load".to_string()],
                    consts: Vec::new(),
                },
            ],
        ),
    ];
    let paths = module_paths(&["model", "setup"]);
    let map = collect_crate_reexports("my_crate", &modules, &paths, &StrSet::new(), &StrMap::new());
    let model = info(&map, "model");
    let items = model.associated.get("Config").unwrap();
    assert!(items.fns.contains("load"));
}
