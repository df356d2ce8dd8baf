//! The `use` items of a file as plain values: the tree of paths one item
//! writes, its visibility, and where in the file it stands.

use vstd::prelude::*;

use crate::analyze::exports::owned;
use crate::analyze::resolution::{append_to_path, appended, self_word, super_word};
use crate::model::EdgeContext;

verus! {

/// The tree of one `use` item: `a::{b, c as d, e::*}`.
#[derive(Debug)]
pub enum UseTree {
    /// `ident::tree`
    Path(String, Box<UseTree>),
    /// `ident`
    Name(String),
    /// `ident as rename`
    Rename(String, String),
    /// `*`
    Glob,
    /// `{tree, ..}`
    Group(Vec<UseTree>),
}

/// Whether a leaf is the `self` that names its parent module. A `self`
/// without a prefix names no module.
pub open spec fn is_self_leaf(ident: Seq<char>, prefix: Seq<char>) -> bool {
    ident == self_word() && prefix.len() > 0
}

/// The full paths a use tree writes, left to right. With `alias`, a rename
/// gives its alias, the name it binds; without, its original name. A
/// trailing `self` names the module before it.
pub open spec fn tree_paths(tree: UseTree, prefix: Seq<char>, alias: bool) -> Seq<Seq<char>>
    decreases tree, 0int,
{
    match tree {
        UseTree::Path(ident, sub) => tree_paths(*sub, appended(prefix, ident@), alias),
        UseTree::Name(ident) => if is_self_leaf(ident@, prefix) {
            seq![prefix]
        } else {
            seq![appended(prefix, ident@)]
        },
        UseTree::Rename(ident, rename) => if !alias && is_self_leaf(ident@, prefix) {
            seq![prefix]
        } else if alias {
            seq![appended(prefix, rename@)]
        } else {
            seq![appended(prefix, ident@)]
        },
        UseTree::Glob => seq![appended(prefix, seq!['*'])],
        UseTree::Group(items) => group_paths(items@, prefix, alias, items@.len() as int),
    }
}

/// The paths of the first `n` trees of a group, in order.
pub open spec fn group_paths(items: Seq<UseTree>, prefix: Seq<char>, alias: bool, n: int) -> Seq<
    Seq<char>,
>
    decreases items, n,
{
    if n <= 0 || n > items.len() {
        Seq::empty()
    } else {
        group_paths(items, prefix, alias, n - 1) + tree_paths(items[n - 1], prefix, alias)
    }
}

/// Whether `ident` is `self`.
fn is_self(ident: &str) -> (res: bool)
    ensures
        res == (ident@ == self_word()),
{
    let word = vec!['s', 'e', 'l', 'f'];
    assert(word@ =~= self_word());
    crate::text::seq_eq(&crate::text::chars_of(ident), &word)
}

/// Resolve a use tree into the full paths it writes.
///
/// `use cli::{Args, Cargo, run}` gives `cli::Args`, `cli::Cargo`,
/// `cli::run`. With `use_alias`, a rename gives its alias (`as X` → `X`);
/// without, its original name. A trailing `self` (`use foo::{self, ..}`)
/// names the module `foo` itself.
pub fn resolve_use_tree(tree: &UseTree, prefix: &str, use_alias: bool) -> (res: Vec<String>)
    ensures
        res@.map_values(|s: String| s@) == tree_paths(*tree, prefix@, use_alias),
    decreases tree, 0int,
{
    match tree {
        UseTree::Path(ident, sub) => {
            let next = append_to_path(prefix, ident.as_str());
            resolve_use_tree(sub, next.as_str(), use_alias)
        },
        UseTree::Name(ident) => {
            let path = if is_self(ident.as_str()) && !prefix.is_empty() {
                owned(prefix)
            } else {
                append_to_path(prefix, ident.as_str())
            };
            let res = vec![path];
            assert(res@.map_values(|s: String| s@) =~= tree_paths(*tree, prefix@, use_alias));
            res
        },
        UseTree::Rename(ident, rename) => {
            let path = if !use_alias && is_self(ident.as_str()) && !prefix.is_empty() {
                owned(prefix)
            } else if use_alias {
                append_to_path(prefix, rename.as_str())
            } else {
                append_to_path(prefix, ident.as_str())
            };
            let res = vec![path];
            assert(res@.map_values(|s: String| s@) =~= tree_paths(*tree, prefix@, use_alias));
            res
        },
        UseTree::Glob => {
            let star = vec!['*'];
            assert(star@ =~= seq!['*']);
            let res = vec![append_to_path(prefix, crate::text::string_of(star.as_slice()).as_str())];
            assert(res@.map_values(|s: String| s@) =~= tree_paths(*tree, prefix@, use_alias));
            res
        },
        UseTree::Group(items) => resolve_group(items, prefix, use_alias, items.len()),
    }
}

/// The paths of the first `n` trees of a group.
fn resolve_group(items: &Vec<UseTree>, prefix: &str, use_alias: bool, n: usize) -> (res: Vec<String>)
    requires
        n <= items.len(),
    ensures
        res@.map_values(|s: String| s@) == group_paths(items@, prefix@, use_alias, n as int),
    decreases items@, n,
{
    if n == 0 {
        let res: Vec<String> = Vec::new();
        assert(res@.map_values(|s: String| s@) =~= Seq::<Seq<char>>::empty());
        return res;
    }
    let mut res = resolve_group(items, prefix, use_alias, n - 1);
    let last = resolve_use_tree(&items[n - 1], prefix, use_alias);
    let ghost head = res@.map_values(|s: String| s@);
    let mut k: usize = 0;
    while k < last.len()
        invariant
            k <= last.len(),
            res@.map_values(|s: String| s@) == head + last@.map_values(|s: String| s@).take(k as int),
        decreases last.len() - k,
    {
        let ghost before = res@;
        let piece = last[k].clone();
        res.push(piece);
        proof {
            assert(res@.map_values(|s: String| s@) =~= before.map_values(|s: String| s@).push(
                piece@,
            ));
            assert(last@.map_values(|s: String| s@).take(k + 1) =~= last@.map_values(
                |s: String| s@,
            ).take(k as int).push(last@[k as int]@));
        }
        k = k + 1;
    }
    assert(last@.map_values(|s: String| s@).take(last.len() as int) =~= last@.map_values(
        |s: String| s@,
    ));
    res
}

/// The visibility written before a `use`.
#[derive(Debug)]
pub enum Visibility {
    /// `pub`
    Public,
    /// `pub(path)`, or `pub(in path)` where `in_token` holds.
    Restricted { in_token: bool, path: String },
    /// No visibility: private.
    Inherited,
}

/// `crate`
pub open spec fn crate_word() -> Seq<char> {
    seq!['c', 'r', 'a', 't', 'e']
}

/// Whether a visibility republishes what the `use` binds: `pub`,
/// `pub(crate)`, `pub(super)`; not private, and not `pub(in path)`.
pub open spec fn reexports(vis: Visibility) -> bool {
    match vis {
        Visibility::Public => true,
        Visibility::Restricted { in_token, path } => !in_token && (path@ == crate_word()
            || path@ == super_word()),
        Visibility::Inherited => false,
    }
}

/// Whether a visibility qualifies as a re-export: `pub`, `pub(crate)`,
/// `pub(super)`, but not private or `pub(in path)`.
pub fn is_reexport_visibility(vis: &Visibility) -> (res: bool)
    ensures
        res == reexports(*vis),
{
    match vis {
        Visibility::Public => true,
        Visibility::Restricted { in_token, path } => {
            let crate_chars = vec!['c', 'r', 'a', 't', 'e'];
            assert(crate_chars@ =~= crate_word());
            let super_chars = vec!['s', 'u', 'p', 'e', 'r'];
            assert(super_chars@ =~= super_word());
            let p = crate::text::chars_of(path.as_str());
            !*in_token && (crate::text::seq_eq(&p, &crate_chars) || crate::text::seq_eq(
                &p,
                &super_chars,
            ))
        },
        Visibility::Inherited => false,
    }
}

/// One `use` item with what its position says about it.
#[derive(Debug)]
pub struct CollectedUse {
    pub tree: UseTree,
    pub vis: Visibility,
    /// The line of the `use` keyword.
    pub line: usize,
    pub context: EdgeContext,
    /// How many inline modules stand around the item.
    pub inline_depth: usize,
    /// The binding region the item stands in.
    pub region: usize,
}

} // verus!
