//! Module resolution for Rust crates: where a `mod` declaration's file may
//! stand, which declarations count, and whether attributes mark test code.
//! Whether a candidate file exists is asked of the file system by the caller.

use vstd::prelude::*;

use crate::analyze::exports::owned;
use crate::paths::{file_name, file_name_of, join, join_of, parent, parent_of, stem_of, stem_of_name};
use crate::text::{chars_of, seq_eq, string_of};

verus! {

/// `mod.rs`, `lib.rs` or `main.rs`: a file whose child modules live beside
/// it.
pub open spec fn is_dir_style_name(name: Seq<char>) -> bool {
    ||| name == seq!['m', 'o', 'd', '.', 'r', 's']
    ||| name == seq!['l', 'i', 'b', '.', 'r', 's']
    ||| name == seq!['m', 'a', 'i', 'n', '.', 'r', 's']
}

/// The directory child modules of a file resolve in: the file's own
/// directory for a crate root and for `mod.rs`, `lib.rs`, `main.rs`; the
/// subdirectory named by the file's stem otherwise.
pub open spec fn child_dir_of(path: Seq<char>, is_crate_root: bool) -> Seq<char> {
    let dir = match parent_of(path) {
        Some(d) => d,
        None => seq!['.'],
    };
    let name = match file_name_of(path) {
        Some(n) => n,
        None => Seq::empty(),
    };
    if is_crate_root || is_dir_style_name(name) {
        dir
    } else {
        join_of(dir, stem_of_name(name))
    }
}

/// Determine the directory where child modules are resolved. A crate root
/// is always dir-style regardless of its file name: its children live
/// beside it.
pub fn child_resolve_dir(file_path: &str, is_crate_root: bool) -> (res: String)
    ensures
        res@ == child_dir_of(file_path@, is_crate_root),
{
    let dir = match parent(file_path) {
        Some(d) => d,
        None => {
            let dot = vec!['.'];
            assert(dot@ =~= seq!['.']);
            string_of(dot.as_slice())
        },
    };
    let name = match file_name(file_path) {
        Some(n) => chars_of(n.as_str()),
        None => Vec::new(),
    };
    assert(name@ == match file_name_of(file_path@) {
        Some(n) => n,
        None => Seq::<char>::empty(),
    });
    let mod_rs = vec!['m', 'o', 'd', '.', 'r', 's'];
    let lib_rs = vec!['l', 'i', 'b', '.', 'r', 's'];
    let main_rs = vec!['m', 'a', 'i', 'n', '.', 'r', 's'];
    assert(mod_rs@ =~= seq!['m', 'o', 'd', '.', 'r', 's']);
    assert(lib_rs@ =~= seq!['l', 'i', 'b', '.', 'r', 's']);
    assert(main_rs@ =~= seq!['m', 'a', 'i', 'n', '.', 'r', 's']);
    if is_crate_root || seq_eq(&name, &mod_rs) || seq_eq(&name, &lib_rs) || seq_eq(&name, &main_rs) {
        dir
    } else {
        let stem = string_of(stem_of(&name).as_slice());
        join(dir.as_str(), stem.as_str())
    }
}

/// `name.rs`
pub open spec fn rs_file(name: Seq<char>) -> Seq<char> {
    name + seq!['.', 'r', 's']
}

/// `mod.rs`
pub open spec fn mod_rs() -> Seq<char> {
    seq!['m', 'o', 'd', '.', 'r', 's']
}

/// The two files a module may stand in, in the order they are tried:
/// `dir/name.rs`, then `dir/name/mod.rs`.
pub fn mod_path_candidates(parent_dir: &str, mod_name: &str) -> (res: (String, String))
    ensures
        res.0@ == join_of(parent_dir@, rs_file(mod_name@)),
        res.1@ == join_of(join_of(parent_dir@, mod_name@), mod_rs()),
{
    let mut file = chars_of(mod_name);
    file.push('.');
    file.push('r');
    file.push('s');
    assert(file@ =~= rs_file(mod_name@));
    let first = join(parent_dir, string_of(file.as_slice()).as_str());
    let dir = join(parent_dir, mod_name);
    let m = vec!['m', 'o', 'd', '.', 'r', 's'];
    assert(m@ =~= mod_rs());
    let second = join(dir.as_str(), string_of(m.as_slice()).as_str());
    (first, second)
}

/// A configuration predicate as written in `#[cfg(..)]`: a bare name, a
/// call such as `all(..)` with the predicates it could be parsed into, or
/// anything else.
#[derive(Debug)]
pub enum CfgMeta {
    /// `name`
    Path(String),
    /// `name(..)`, with the nested predicates where they parse.
    List(String, Option<Vec<CfgMeta>>),
    /// `name = value` and any other form.
    Other,
}

/// `test`
pub open spec fn test_word() -> Seq<char> {
    seq!['t', 'e', 's', 't']
}

/// Whether a predicate names `test`: the bare name, or inside `all(..)` or
/// `any(..)` whose arguments parse.
pub open spec fn meta_has_test(meta: CfgMeta) -> bool
    decreases meta, 0int,
{
    match meta {
        CfgMeta::Path(name) => name@ == test_word(),
        CfgMeta::List(name, nested) => (name@ == seq!['a', 'l', 'l'] || name@ == seq!['a', 'n', 'y'])
            && match nested {
            Some(items) => list_has_test(items@, items@.len() as int),
            None => false,
        },
        CfgMeta::Other => false,
    }
}

/// Whether one of the first `n` predicates names `test`.
pub open spec fn list_has_test(items: Seq<CfgMeta>, n: int) -> bool
    decreases items, n,
{
    if n <= 0 || n > items.len() {
        false
    } else {
        list_has_test(items, n - 1) || meta_has_test(items[n - 1])
    }
}

/// Whether a predicate names `test`.
pub fn meta_contains_test(meta: &CfgMeta) -> (res: bool)
    ensures
        res == meta_has_test(*meta),
    decreases meta, 0int,
{
    match meta {
        CfgMeta::Path(name) => {
            let t = vec!['t', 'e', 's', 't'];
            assert(t@ =~= test_word());
            seq_eq(&chars_of(name.as_str()), &t)
        },
        CfgMeta::List(name, nested) => {
            let all = vec!['a', 'l', 'l'];
            let any = vec!['a', 'n', 'y'];
            assert(all@ =~= seq!['a', 'l', 'l']);
            assert(any@ =~= seq!['a', 'n', 'y']);
            let n = chars_of(name.as_str());
            if !(seq_eq(&n, &all) || seq_eq(&n, &any)) {
                return false;
            }
            match nested {
                Some(items) => any_contains_test(items, items.len()),
                None => false,
            }
        },
        CfgMeta::Other => false,
    }
}

/// Whether one of the first `n` predicates names `test`.
fn any_contains_test(items: &Vec<CfgMeta>, n: usize) -> (res: bool)
    requires
        n <= items.len(),
    ensures
        res == list_has_test(items@, n as int),
    decreases items@, n,
{
    if n == 0 {
        return false;
    }
    any_contains_test(items, n - 1) || meta_contains_test(&items[n - 1])
}

/// An attribute as far as test detection reads it: its path, and for
/// `#[cfg(..)]` the predicate its arguments parse into.
#[derive(Debug)]
pub struct CfgAttribute {
    pub path: String,
    pub meta: Option<CfgMeta>,
}

/// `cfg`
pub open spec fn cfg_word() -> Seq<char> {
    seq!['c', 'f', 'g']
}

/// Whether an attribute is a `#[cfg(..)]` whose predicate names `test`.
pub open spec fn attr_is_test(a: CfgAttribute) -> bool {
    a.path@ == cfg_word() && match a.meta {
        Some(m) => meta_has_test(m),
        None => false,
    }
}

/// Whether one of the attributes is a `#[cfg(..)]` whose predicate names
/// `test`.
pub open spec fn attrs_have_test(attrs: Seq<CfgAttribute>) -> bool {
    exists|i: int| 0 <= i < attrs.len() && #[trigger] attr_is_test(attrs[i])
}

/// Check whether attributes contain `#[cfg(test)]`, including compound
/// predicates like `#[cfg(all(test, feature = "..."))]`.
pub fn is_cfg_test(attrs: &Vec<CfgAttribute>) -> (res: bool)
    ensures
        res == attrs_have_test(attrs@),
{
    let cfg = vec!['c', 'f', 'g'];
    assert(cfg@ =~= cfg_word());
    let mut i: usize = 0;
    while i < attrs.len()
        invariant
            i <= attrs@.len(),
            cfg@ == cfg_word(),
            forall|j: int| 0 <= j < i ==> !#[trigger] attr_is_test(attrs@[j]),
        decreases attrs.len() - i,
    {
        let a = &attrs[i];
        if seq_eq(&chars_of(a.path.as_str()), &cfg) {
            match &a.meta {
                Some(m) => {
                    if meta_contains_test(m) {
                        assert(attr_is_test(attrs@[i as int]));
                        return true;
                    }
                },
                None => {},
            }
        }
        i = i + 1;
    }
    false
}

/// A `mod` item as far as module discovery reads it.
#[derive(Debug)]
pub struct ModItem {
    pub name: String,
    /// `mod name { .. }`: the module is inline.
    pub inline: bool,
    pub attrs: Vec<CfgAttribute>,
    /// The value of a `#[path = ".."]` attribute.
    pub path_attribute: Option<String>,
}

/// A declared `mod` item (external, not inline).
#[derive(Debug)]
pub struct ModDecl {
    pub name: String,
    pub explicit_path: Option<String>,
}

/// Whether a `mod` item declares a module in a file of its own that the
/// walk follows: not inline, and not test code unless tests are included.
pub open spec fn declares_file(item: ModItem, include_tests: bool) -> bool {
    !item.inline && (include_tests || !attrs_have_test(item.attrs@))
}

/// The declarations among the first `k` items, in order.
pub open spec fn declared_upto(items: Seq<ModItem>, include_tests: bool, k: int) -> Seq<(Seq<char>, Option<Seq<char>>)>
    decreases k,
{
    if k <= 0 || k > items.len() {
        Seq::empty()
    } else if declares_file(items[k - 1], include_tests) {
        declared_upto(items, include_tests, k - 1).push(
            (
                items[k - 1].name@,
                match items[k - 1].path_attribute {
                    Some(p) => Some(p@),
                    None => None,
                },
            ),
        )
    } else {
        declared_upto(items, include_tests, k - 1)
    }
}

/// The view of a declaration.
pub open spec fn decl_view(d: ModDecl) -> (Seq<char>, Option<Seq<char>>) {
    (
        d.name@,
        match d.explicit_path {
            Some(p) => Some(p@),
            None => None,
        },
    )
}

/// Extract the external `mod` declarations of a file, leaving out inline
/// modules and, unless tests are included, `#[cfg(test)]` modules.
pub fn extract_mod_declarations(items: &Vec<ModItem>, include_tests: bool) -> (res: Vec<ModDecl>)
    ensures
        res@.map_values(|d: ModDecl| decl_view(d)) == declared_upto(items@, include_tests, items@.len() as int),
{
    let mut decls: Vec<ModDecl> = Vec::new();
    let mut i: usize = 0;
    assert(decls@.map_values(|d: ModDecl| decl_view(d)) =~= Seq::<(Seq<char>, Option<Seq<char>>)>::empty());
    while i < items.len()
        invariant
            i <= items@.len(),
            decls@.map_values(|d: ModDecl| decl_view(d)) == declared_upto(items@, include_tests, i as int),
        decreases items.len() - i,
    {
        let item = &items[i];
        if !item.inline && (include_tests || !is_cfg_test(&item.attrs)) {
            let explicit_path = match &item.path_attribute {
                Some(p) => Some(p.clone()),
                None => None,
            };
            let d = ModDecl { name: item.name.clone(), explicit_path };
            let ghost before = decls@;
            decls.push(d);
            assert(decls@.map_values(|d: ModDecl| decl_view(d)) =~= before.map_values(
                |d: ModDecl| decl_view(d),
            ).push(decl_view(d)));
        }
        i = i + 1;
    }
    decls
}

} // verus!
