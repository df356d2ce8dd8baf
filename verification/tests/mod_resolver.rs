use cargo_arc::analyze::mod_resolver::{
    child_resolve_dir, extract_mod_declarations, is_cfg_test, mod_path_candidates, CfgAttribute,
    CfgMeta, ModItem,
};
use cargo_arc::analyze::syntax::parse_mod_items;

fn mod_items(source: &str) -> Vec<ModItem> {
    parse_mod_items(source).unwrap()
}

fn parse_attrs(code: &str) -> Vec<CfgAttribute> {
    let mut items = mod_items(code);
    assert!(!items.is_empty(), "expected mod item");
    items.remove(0).attrs
}

#[test]
fn test_dir_style_files_resolve_in_place() {
    for name in ["lib.rs", "main.rs", "mod.rs"] {
        let path = format!("/w/src/{name}");
        assert_eq!(child_resolve_dir(&path, false), "/w/src");
    }
}

#[test]
fn test_file_style_resolves_into_subdir() {
    assert_eq!(child_resolve_dir("/w/src/entry.rs", false), "/w/src/entry");
}

#[test]
fn test_crate_root_resolves_in_place_despite_name() {
    assert_eq!(child_resolve_dir("/w/src/entry.rs", true), "/w/src");
}

#[test]
fn mod_resolver_test_is_cfg_test_positive() {
    let attrs = parse_attrs("#[cfg(test)] mod tests;");
    assert!(is_cfg_test(&attrs));
}

#[test]
fn mod_resolver_test_is_cfg_test_negative() {
    let attrs = parse_attrs("#[cfg(feature = \"foo\")] mod x;");
    assert!(!is_cfg_test(&attrs));
}

#[test]
fn mod_resolver_test_is_cfg_test_no_attrs() {
    let attrs = parse_attrs("mod foo;");
    assert!(!is_cfg_test(&attrs));
}

#[test]
fn compound_cfg_with_test_counts_as_test() {
    assert!(is_cfg_test(&parse_attrs("#[cfg(all(test, feature = \"x\"))] mod t;")));
    assert!(is_cfg_test(&parse_attrs("#[cfg(any(unix, test))] mod t;")));
    assert!(!is_cfg_test(&parse_attrs("#[cfg(not(test))] mod t;")));
    assert!(!is_cfg_test(&parse_attrs("#[allow(test)] mod t;")));
}

#[test]
fn test_parse_mod_simple() {
    let decls = extract_mod_declarations(&mod_items("mod foo;"), false);
    assert_eq!(decls.len(), 1);
    assert_eq!(decls[0].name, "foo");
    assert!(decls[0].explicit_path.is_none());
}

#[test]
fn test_parse_mod_cfg_test_filtered() {
    let decls = extract_mod_declarations(&mod_items("#[cfg(test)]\nmod tests;"), false);
    assert!(decls.is_empty());
}

#[test]
fn test_parse_mod_multiple() {
    let decls = extract_mod_declarations(&mod_items("mod alpha;\nmod beta;\nmod gamma;"), false);
    let names: Vec<&str> = decls.iter().map(|d| d.name.as_str()).collect();
    assert_eq!(names, vec!["alpha", "beta", "gamma"]);
}

#[test]
fn test_parse_mod_inline_ignored() {
    let decls = extract_mod_declarations(&mod_items("mod foo { fn bar() {} }"), false);
    assert!(decls.is_empty());
}

#[test]
fn test_parse_mod_with_path_attribute() {
    let decls = extract_mod_declarations(&mod_items("#[path = \"custom.rs\"]\nmod foo;"), false);
    assert_eq!(decls.len(), 1);
    assert_eq!(decls[0].name, "foo");
    assert_eq!(decls[0].explicit_path.as_deref(), Some("custom.rs"));
}

#[test]
fn test_modules_are_kept_when_tests_are_included() {
    let decls = extract_mod_declarations(&mod_items("#[cfg(test)]\nmod tests;\nmod a;"), true);
    let names: Vec<&str> = decls.iter().map(|d| d.name.as_str()).collect();
    assert_eq!(names, vec!["tests", "a"]);
}

#[test]
fn candidates_are_the_file_then_the_directory() {
    let (file, dir) = mod_path_candidates("/w/src", "foo");
    assert_eq!(file, "/w/src/foo.rs");
    assert_eq!(dir, "/w/src/foo/mod.rs");
}

#[test]
fn syn_walker_test_is_cfg_test_positive() {
    let attrs = parse_attrs("#[cfg(test)] mod tests;");
    assert!(is_cfg_test(&attrs));
}

#[test]
fn syn_walker_test_is_cfg_test_negative() {
    let attrs = parse_attrs("#[cfg(feature = \"foo\")] mod x;");
    assert!(!is_cfg_test(&attrs));
}

#[test]
fn syn_walker_test_is_cfg_test_no_attrs() {
    let attrs = parse_attrs("mod foo;");
    assert!(!is_cfg_test(&attrs));
}

#[test]
fn mod_items_read_names_attributes_and_paths() {
    let items = mod_items("#[cfg(all(test, feature = \"x\"))]\n#[path = \"a.rs\"]\npub mod a;\nfn f() {}\nmod b { }\n");
    assert_eq!(items.len(), 2);
    assert_eq!(items[0].name, "a");
    assert!(!items[0].inline);
    assert_eq!(items[0].attrs.len(), 2);
    assert_eq!(items[0].attrs[0].path, "cfg");
    match &items[0].attrs[0].meta {
        Some(CfgMeta::List(name, Some(nested))) => {
            assert_eq!(name, "all");
            assert_eq!(nested.len(), 2);
            assert!(matches!(&nested[0], CfgMeta::Path(p) if p == "test"));
            assert!(matches!(&nested[1], CfgMeta::Other));
        }
        other => panic!("unexpected {other:?}"),
    }
    assert!(items[0].attrs[1].meta.is_none());
    assert_eq!(items[0].path_attribute.as_deref(), Some("a.rs"));
    assert_eq!(items[1].name, "b");
    assert!(items[1].inline);
    assert!(parse_mod_items("mod ;").is_none());
}
