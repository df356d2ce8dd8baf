//! Reading a module file's items off its source text: `syn` parses the text,
//! and the items are read off the syntax tree one part at a time, each part
//! a plain value named by the text it comes from.

use syn::punctuated::Punctuated;
use syn::spanned::Spanned;
use vstd::prelude::*;

use crate::analyze::reexports::{
    collect_module_info, exports_view, first_pass, no_exports, out_view, second_pass, FileItem, OutOfModuleImpl,
};
use crate::analyze::exports::ModuleExportInfo;
use crate::analyze::mod_resolver::{cfg_word, CfgAttribute, CfgMeta, ModItem};
use crate::analyze::resolution::ResolutionContext;
use crate::analyze::use_tree::{UseTree, Visibility};
use crate::model::DefKind;
use crate::text::{chars_of, join_colons, join_on_colons, string_of};

verus! {

#[verifier::external_type_specification]
#[verifier::external_body]
pub struct ExSynFile(syn::File);

/// A source text that parses as a Rust file, with `syn`'s syntax tree of it.
pub struct SyntaxFile {
    text: String,
    tree: syn::File,
}

impl View for SyntaxFile {
    type V = Seq<char>;

    closed spec fn view(&self) -> Seq<char> {
        self.text@
    }
}

/// What an item of a file is, as far as its items are read.
#[derive(Clone, Copy, Debug, PartialEq, Eq, Structural)]
pub enum ItemKind {
    Use,
    Fn,
    Struct,
    Enum,
    Trait,
    Const,
    Static,
    Type,
    Impl,
    Mod,
    Other,
}

/// What a visibility is: `pub`, `pub(..)`, or none.
#[derive(Clone, Copy, Debug, PartialEq, Eq, Structural)]
pub enum VisKind {
    Public,
    Restricted,
    Inherited,
}

/// What a node of a `use` tree is.
#[derive(Clone, Copy, Debug, PartialEq, Eq, Structural)]
pub enum NodeTag {
    Path,
    Name,
    Rename,
    Glob,
    Group,
}

/// What a member of a trait or an impl block is.
#[derive(Clone, Copy, Debug, PartialEq, Eq, Structural)]
pub enum MemberTag {
    Fn,
    Const,
    Other,
}

/// One node of a `use` tree: its tag, its ident and rename where it has
/// them, and how many children it has.
pub struct UseNode {
    pub tag: NodeTag,
    pub name: String,
    pub rename: String,
    pub count: usize,
}

/// Whether `syn` parses the text as a Rust file.
pub uninterp spec fn parses(text: Seq<char>) -> bool;

/// How many items `syn` reads at the top level of the text.
pub uninterp spec fn items_in(text: Seq<char>) -> usize;

/// What the `i`-th item of the text is.
pub uninterp spec fn kind_in(text: Seq<char>, i: usize) -> ItemKind;

/// The ident of the `i`-th item where it is a named definition or a module;
/// empty else.
pub uninterp spec fn ident_in(text: Seq<char>, i: usize) -> Seq<char>;

/// The line the `i`-th item starts on.
pub uninterp spec fn line_in(text: Seq<char>, i: usize) -> usize;

/// The visibility of the `i`-th item where it is a `use` or a named
/// definition: its kind, and whether `pub(in ..)`.
pub uninterp spec fn vis_kind_in(text: Seq<char>, i: usize) -> (VisKind, bool);

/// The segments of the path of the `i`-th item's `pub(..)`.
pub uninterp spec fn vis_path_in(text: Seq<char>, i: usize) -> Seq<Seq<char>>;

/// The visibility of the `i`-th item: its kind, whether `pub(in ..)`, and
/// the path's segments.
pub open spec fn vis_in(text: Seq<char>, i: usize) -> (VisKind, bool, Seq<Seq<char>>) {
    (vis_kind_in(text, i).0, vis_kind_in(text, i).1, vis_path_in(text, i))
}

/// The node of the `i`-th item's `use` tree reached by `path`, each step a
/// child's position (the one child of a path node is at 0): its tag and how
/// many children it has.
pub uninterp spec fn use_tag_in(text: Seq<char>, i: usize, path: Seq<usize>) -> Option<(NodeTag, usize)>;

/// The ident and rename of the node reached by `path`, where it has them.
pub uninterp spec fn use_names_in(text: Seq<char>, i: usize, path: Seq<usize>) -> Option<(Seq<char>, Seq<char>)>;

/// The node reached by `path`: tag, ident, rename and number of children.
pub open spec fn use_node_in(text: Seq<char>, i: usize, path: Seq<usize>) -> Option<(NodeTag, Seq<char>, Seq<char>, usize)> {
    match (use_tag_in(text, i, path), use_names_in(text, i, path)) {
        (Some(n), Some(m)) => Some((n.0, m.0, m.1, n.1)),
        _ => None,
    }
}

/// How many variants, trait members or impl members the `i`-th item has.
pub uninterp spec fn member_count_in(text: Seq<char>, i: usize) -> usize;

/// The `j`-th variant of the `i`-th item where it is an enum.
pub uninterp spec fn variant_in(text: Seq<char>, i: usize, j: usize) -> Seq<char>;

/// What the `j`-th member of the `i`-th item is where it is a trait or an
/// impl block.
pub uninterp spec fn member_tag_in(text: Seq<char>, i: usize, j: usize) -> MemberTag;

/// The ident of the `j`-th member of the `i`-th item where it is a fn or a
/// const of a trait or an impl block.
pub uninterp spec fn member_name_in(text: Seq<char>, i: usize, j: usize) -> Seq<char>;

/// The `j`-th member of the `i`-th item: what it is and its ident.
pub open spec fn member_in(text: Seq<char>, i: usize, j: usize) -> (MemberTag, Seq<char>) {
    (member_tag_in(text, i, j), member_name_in(text, i, j))
}

/// The segments of the self type of the `i`-th item where it is an impl
/// block on a path.
pub uninterp spec fn self_path_in(text: Seq<char>, i: usize) -> Option<Seq<Seq<char>>>;

/// `syn::parse_file`: the text's syntax tree, where it parses. Kept with the
/// text, so that the parts read off the tree below are named by the text.
#[verifier::external_body]
fn parse_syntax(source: &str) -> (res: Option<SyntaxFile>)
    ensures
        res is Some <==> parses(source@),
        res matches Some(f) ==> f@ == source@,
{
    syn::parse_file(source).ok().map(|tree| SyntaxFile { text: source.to_string(), tree })
}

/// The number of items of the parsed file (`File::items`).
#[verifier::external_body]
fn item_count(f: &SyntaxFile) -> (res: usize)
    ensures
        res == items_in(f@),
{
    f.tree.items.len()
}

/// The variant of the `i`-th `syn::Item`.
#[verifier::external_body]
fn item_kind(f: &SyntaxFile, i: usize) -> (res: ItemKind)
    requires
        i < items_in(f@),
    ensures
        res == kind_in(f@, i),
{
    match &f.tree.items[i] {
        syn::Item::Use(_) => ItemKind::Use,
        syn::Item::Fn(_) => ItemKind::Fn,
        syn::Item::Struct(_) => ItemKind::Struct,
        syn::Item::Enum(_) => ItemKind::Enum,
        syn::Item::Trait(_) => ItemKind::Trait,
        syn::Item::Const(_) => ItemKind::Const,
        syn::Item::Static(_) => ItemKind::Static,
        syn::Item::Type(_) => ItemKind::Type,
        syn::Item::Impl(_) => ItemKind::Impl,
        syn::Item::Mod(_) => ItemKind::Mod,
        _ => ItemKind::Other,
    }
}

/// The ident of the `i`-th `syn::Item` where it is a named definition or a
/// module.
#[verifier::external_body]
fn item_ident(f: &SyntaxFile, i: usize) -> (res: String)
    requires
        i < items_in(f@),
    ensures
        res@ == ident_in(f@, i),
{
    match &f.tree.items[i] {
        syn::Item::Fn(x) => x.sig.ident.to_string(),
        syn::Item::Struct(syn::ItemStruct { ident, .. })
        | syn::Item::Enum(syn::ItemEnum { ident, .. })
        | syn::Item::Trait(syn::ItemTrait { ident, .. })
        | syn::Item::Const(syn::ItemConst { ident, .. })
        | syn::Item::Static(syn::ItemStatic { ident, .. })
        | syn::Item::Type(syn::ItemType { ident, .. })
        | syn::Item::Mod(syn::ItemMod { ident, .. }) => ident.to_string(),
        _ => String::new(),
    }
}

/// The line the span of the `i`-th `syn::Item` starts on.
#[verifier::external_body]
fn item_line(f: &SyntaxFile, i: usize) -> (res: usize)
    requires
        i < items_in(f@),
    ensures
        res == line_in(f@, i),
{
    f.tree.items[i].span().start().line
}

/// The `syn::Visibility` of the `i`-th item where it is a `use` or a named
/// definition: its variant, and whether it has `in`.
#[verifier::external_body]
fn item_vis_kind(f: &SyntaxFile, i: usize) -> (res: (VisKind, bool))
    requires
        i < items_in(f@),
    ensures
        res == vis_kind_in(f@, i),
{
    let vis = match &f.tree.items[i] {
        syn::Item::Use(x) => &x.vis, syn::Item::Fn(x) => &x.vis,
        syn::Item::Struct(x) => &x.vis, syn::Item::Enum(x) => &x.vis,
        syn::Item::Trait(x) => &x.vis, syn::Item::Const(x) => &x.vis,
        syn::Item::Static(x) => &x.vis, syn::Item::Type(x) => &x.vis,
        _ => return (VisKind::Inherited, false),
    };
    match vis {
        syn::Visibility::Public(_) => (VisKind::Public, false),
        syn::Visibility::Restricted(r) => (VisKind::Restricted, r.in_token.is_some()),
        syn::Visibility::Inherited => (VisKind::Inherited, false),
    }
}

/// The path segments of the `syn::VisRestricted` of the `i`-th item.
#[verifier::external_body]
fn item_vis_path(f: &SyntaxFile, i: usize) -> (res: Vec<String>)
    requires
        i < items_in(f@),
    ensures
        res@.map_values(|s: String| s@) == vis_path_in(f@, i),
{
    let vis = match &f.tree.items[i] {
        syn::Item::Use(x) => &x.vis, syn::Item::Fn(x) => &x.vis,
        syn::Item::Struct(x) => &x.vis, syn::Item::Enum(x) => &x.vis,
        syn::Item::Trait(x) => &x.vis, syn::Item::Const(x) => &x.vis,
        syn::Item::Static(x) => &x.vis, syn::Item::Type(x) => &x.vis,
        _ => return Vec::new(),
    };
    match vis {
        syn::Visibility::Restricted(r) => r.path.segments.iter().map(|s| s.ident.to_string()).collect(),
        _ => Vec::new(),
    }
}

/// The tag and number of children of the `syn::UseTree` node of the
/// `i`-th item reached along `path`.
#[verifier::external_body]
fn use_tag(f: &SyntaxFile, i: usize, path: &Vec<usize>) -> (res: Option<(NodeTag, usize)>)
    requires
        i < items_in(f@),
    ensures
        res == use_tag_in(f@, i, path@),
{
    let mut t = match &f.tree.items[i] { syn::Item::Use(u) => &u.tree, _ => return None };
    for k in path.iter() {
        t = match t { syn::UseTree::Path(p) => &*p.tree, syn::UseTree::Group(g) => g.items.iter().nth(*k)?, _ => return None };
    }
    Some(match t {
        syn::UseTree::Path(_) => (NodeTag::Path, 1),
        syn::UseTree::Name(_) => (NodeTag::Name, 0),
        syn::UseTree::Rename(_) => (NodeTag::Rename, 0),
        syn::UseTree::Glob(_) => (NodeTag::Glob, 0),
        syn::UseTree::Group(g) => (NodeTag::Group, g.items.len()),
    })
}

/// The ident and rename of the `syn::UseTree` node reached along `path`.
#[verifier::external_body]
fn use_names(f: &SyntaxFile, i: usize, path: &Vec<usize>) -> (res: Option<(String, String)>)
    requires
        i < items_in(f@),
    ensures
        res is None <==> use_names_in(f@, i, path@) is None,
        res matches Some(r) ==> use_names_in(f@, i, path@) == Some((r.0@, r.1@)),
{
    let mut t = match &f.tree.items[i] { syn::Item::Use(u) => &u.tree, _ => return None };
    for k in path.iter() {
        t = match t { syn::UseTree::Path(p) => &*p.tree, syn::UseTree::Group(g) => g.items.iter().nth(*k)?, _ => return None };
    }
    Some(match t {
        syn::UseTree::Path(p) => (p.ident.to_string(), String::new()),
        syn::UseTree::Name(n) => (n.ident.to_string(), String::new()),
        syn::UseTree::Rename(r) => (r.ident.to_string(), r.rename.to_string()),
        _ => (String::new(), String::new()),
    })
}

/// The node of the `i`-th item's `use` tree reached along `path`.
fn use_node(f: &SyntaxFile, i: usize, path: &Vec<usize>) -> (res: Option<UseNode>)
    requires
        i < items_in(f@),
    ensures
        res is None <==> use_node_in(f@, i, path@) is None,
        res matches Some(n) ==> use_node_in(f@, i, path@) == Some((n.tag, n.name@, n.rename@, n.count)),
{
    match use_tag(f, i, path) {
        None => None,
        Some((tag, count)) => match use_names(f, i, path) {
            Some((name, rename)) => Some(UseNode { tag, name, rename, count }),
            None => None,
        },
    }
}

/// How many variants, trait items or impl items the `i`-th item has.
#[verifier::external_body]
fn member_count(f: &SyntaxFile, i: usize) -> (res: usize)
    requires
        i < items_in(f@),
    ensures
        res == member_count_in(f@, i),
{
    match &f.tree.items[i] {
        syn::Item::Enum(x) => x.variants.len(),
        syn::Item::Trait(x) => x.items.len(),
        syn::Item::Impl(x) => x.items.len(),
        _ => 0,
    }
}

/// The ident of the `j`-th variant of the `i`-th item.
#[verifier::external_body]
fn variant(f: &SyntaxFile, i: usize, j: usize) -> (res: String)
    requires
        i < items_in(f@),
    ensures
        res@ == variant_in(f@, i, j),
{
    match &f.tree.items[i] {
        syn::Item::Enum(x) => x.variants.iter().nth(j).map_or(String::new(), |v| v.ident.to_string()),
        _ => String::new(),
    }
}

/// What the `j`-th `syn::TraitItem` or `syn::ImplItem` of the `i`-th item is.
#[verifier::external_body]
fn member_tag(f: &SyntaxFile, i: usize, j: usize) -> (res: MemberTag)
    requires
        i < items_in(f@),
    ensures
        res == member_tag_in(f@, i, j),
{
    match &f.tree.items[i] {
        syn::Item::Trait(x) => match x.items.get(j) {
            Some(syn::TraitItem::Fn(_)) => MemberTag::Fn,
            Some(syn::TraitItem::Const(_)) => MemberTag::Const,
            _ => MemberTag::Other,
        },
        syn::Item::Impl(x) => match x.items.get(j) {
            Some(syn::ImplItem::Fn(_)) => MemberTag::Fn,
            Some(syn::ImplItem::Const(_)) => MemberTag::Const,
            _ => MemberTag::Other,
        },
        _ => MemberTag::Other,
    }
}

/// The ident of the `j`-th `syn::TraitItem` or `syn::ImplItem` of the
/// `i`-th item where it is a fn or a const.
#[verifier::external_body]
fn member_name(f: &SyntaxFile, i: usize, j: usize) -> (res: String)
    requires
        i < items_in(f@),
    ensures
        res@ == member_name_in(f@, i, j),
{
    match &f.tree.items[i] {
        syn::Item::Trait(x) => match x.items.get(j) {
            Some(syn::TraitItem::Fn(m)) => m.sig.ident.to_string(),
            Some(syn::TraitItem::Const(m)) => m.ident.to_string(),
            _ => String::new(),
        },
        syn::Item::Impl(x) => match x.items.get(j) {
            Some(syn::ImplItem::Fn(m)) => m.sig.ident.to_string(),
            Some(syn::ImplItem::Const(m)) => m.ident.to_string(),
            _ => String::new(),
        },
        _ => String::new(),
    }
}

/// The segments of the `syn::Type::Path` self type of the `i`-th item.
#[verifier::external_body]
fn self_path(f: &SyntaxFile, i: usize) -> (res: Option<Vec<String>>)
    requires
        i < items_in(f@),
    ensures
        res is None <==> self_path_in(f@, i) is None,
        res matches Some(v) ==> self_path_in(f@, i) == Some(v@.map_values(|s: String| s@)),
{
    match &f.tree.items[i] {
        syn::Item::Impl(x) => match &*x.self_ty {
            syn::Type::Path(t) => Some(t.path.segments.iter().map(|s| s.ident.to_string()).collect()),
            _ => None,
        },
        _ => None,
    }
}



/// What a configuration predicate is: `name`, `name(..)`, or another form.
#[derive(Clone, Copy, Debug, PartialEq, Eq, Structural)]
pub enum MetaTag {
    Path,
    List,
    Other,
}

/// Whether the `i`-th item is a module written inline, `mod name { .. }`.
pub uninterp spec fn inline_in(text: Seq<char>, i: usize) -> bool;

/// How many attributes the `i`-th item has where it is a module.
pub uninterp spec fn attr_count_in(text: Seq<char>, i: usize) -> usize;

/// The segments of the path of the `a`-th attribute of the `i`-th module.
pub uninterp spec fn attr_path_in(text: Seq<char>, i: usize, a: usize) -> Seq<Seq<char>>;

/// The string of the `a`-th attribute of the `i`-th module where it is
/// `#[name = "string"]`.
pub uninterp spec fn attr_string_in(text: Seq<char>, i: usize, a: usize) -> Option<Seq<char>>;

/// The predicate reached along `path` in the arguments of the `a`-th
/// attribute of the `i`-th module, parsed as `syn::Meta`: its tag, and for
/// `name(..)` how many predicates its arguments parse into, where they do.
pub uninterp spec fn meta_kind_in(text: Seq<char>, i: usize, a: usize, path: Seq<usize>) -> Option<MetaTag>;

/// For a list reached along `path`, how many predicates its arguments
/// parse into, where they do.
pub uninterp spec fn meta_count_in(text: Seq<char>, i: usize, a: usize, path: Seq<usize>) -> Option<usize>;

/// The predicate reached along `path`: its tag, and the number of
/// predicates of a list where its arguments parse.
pub open spec fn meta_tag_in(text: Seq<char>, i: usize, a: usize, path: Seq<usize>) -> Option<(MetaTag, Option<usize>)> {
    match meta_kind_in(text, i, a, path) {
        Some(k) => Some((k, if k == MetaTag::List { meta_count_in(text, i, a, path) } else { None })),
        None => None,
    }
}

/// The segments of the path of the predicate reached along `path`.
pub uninterp spec fn meta_path_in(text: Seq<char>, i: usize, a: usize, path: Seq<usize>) -> Option<Seq<Seq<char>>>;

/// Whether the `i`-th `syn::ItemMod` has its content inline.
#[verifier::external_body]
fn mod_inline(f: &SyntaxFile, i: usize) -> (res: bool)
    requires
        i < items_in(f@),
    ensures
        res == inline_in(f@, i),
{
    match &f.tree.items[i] {
        syn::Item::Mod(m) => m.content.is_some(),
        _ => false,
    }
}

/// The number of attributes of the `i`-th `syn::ItemMod`.
#[verifier::external_body]
fn attr_count(f: &SyntaxFile, i: usize) -> (res: usize)
    requires
        i < items_in(f@),
    ensures
        res == attr_count_in(f@, i),
{
    match &f.tree.items[i] {
        syn::Item::Mod(m) => m.attrs.len(),
        _ => 0,
    }
}

/// The path segments of the `a`-th `syn::Attribute` of the `i`-th module.
#[verifier::external_body]
fn attr_path(f: &SyntaxFile, i: usize, a: usize) -> (res: Vec<String>)
    requires
        i < items_in(f@),
    ensures
        res@.map_values(|s: String| s@) == attr_path_in(f@, i, a),
{
    match &f.tree.items[i] {
        syn::Item::Mod(m) => match m.attrs.get(a) {
            Some(attr) => attr.path().segments.iter().map(|s| s.ident.to_string()).collect(),
            None => Vec::new(),
        },
        _ => Vec::new(),
    }
}

/// The string literal of the `a`-th attribute of the `i`-th module where it
/// is a name-value attribute with one.
#[verifier::external_body]
fn attr_string(f: &SyntaxFile, i: usize, a: usize) -> (res: Option<String>)
    requires
        i < items_in(f@),
    ensures
        res is None <==> attr_string_in(f@, i, a) is None,
        res matches Some(v) ==> attr_string_in(f@, i, a) == Some(v@),
{
    let attr = match &f.tree.items[i] { syn::Item::Mod(m) => m.attrs.get(a)?, _ => return None };
    match &attr.meta {
        syn::Meta::NameValue(nv) => match &nv.value {
            syn::Expr::Lit(syn::ExprLit { lit: syn::Lit::Str(s), .. }) => Some(s.value()),
            _ => None,
        },
        _ => None,
    }
}

/// `Attribute::parse_args` as a `syn::Meta`, then `parse_args_with` of the
/// comma-separated predicates at each step of `path`: the variant of the
/// predicate reached.
#[verifier::external_body]
fn meta_kind(f: &SyntaxFile, i: usize, a: usize, path: &Vec<usize>) -> (res: Option<MetaTag>)
    requires
        i < items_in(f@),
    ensures
        res == meta_kind_in(f@, i, a, path@),
{
    let attr = match &f.tree.items[i] { syn::Item::Mod(m) => m.attrs.get(a)?, _ => return None };
    let mut meta: syn::Meta = attr.parse_args().ok()?;
    for k in path.iter() {
        let list = match &meta { syn::Meta::List(l) => l, _ => return None };
        meta = list.parse_args_with(Punctuated::<syn::Meta, syn::token::Comma>::parse_terminated).ok()?.into_iter().nth(*k)?;
    }
    Some(match &meta {
        syn::Meta::Path(_) => MetaTag::Path,
        syn::Meta::List(_) => MetaTag::List,
        syn::Meta::NameValue(_) => MetaTag::Other,
    })
}

/// How many predicates the arguments of the `syn::MetaList` reached as in
/// [`meta_kind`] parse into, where they do.
#[verifier::external_body]
fn meta_count(f: &SyntaxFile, i: usize, a: usize, path: &Vec<usize>) -> (res: Option<usize>)
    requires
        i < items_in(f@),
    ensures
        res == meta_count_in(f@, i, a, path@),
{
    let attr = match &f.tree.items[i] { syn::Item::Mod(m) => m.attrs.get(a)?, _ => return None };
    let mut meta: syn::Meta = attr.parse_args().ok()?;
    for k in path.iter() {
        let list = match &meta { syn::Meta::List(l) => l, _ => return None };
        meta = list.parse_args_with(Punctuated::<syn::Meta, syn::token::Comma>::parse_terminated).ok()?.into_iter().nth(*k)?;
    }
    let list = match &meta { syn::Meta::List(l) => l, _ => return None };
    Some(list.parse_args_with(Punctuated::<syn::Meta, syn::token::Comma>::parse_terminated).ok()?.len())
}

/// The predicate reached along `path`: its tag, and for a list how many
/// predicates it parses into.
fn meta_tag(f: &SyntaxFile, i: usize, a: usize, path: &Vec<usize>) -> (res: Option<(MetaTag, Option<usize>)>)
    requires
        i < items_in(f@),
    ensures
        res == meta_tag_in(f@, i, a, path@),
{
    match meta_kind(f, i, a, path) {
        None => None,
        Some(k) => {
            if k == MetaTag::List {
                Some((k, meta_count(f, i, a, path)))
            } else {
                Some((k, None))
            }
        },
    }
}

/// The path segments of the `syn::Meta` reached as in [`meta_tag`].
#[verifier::external_body]
fn meta_path(f: &SyntaxFile, i: usize, a: usize, path: &Vec<usize>) -> (res: Option<Vec<String>>)
    requires
        i < items_in(f@),
    ensures
        res is None <==> meta_path_in(f@, i, a, path@) is None,
        res matches Some(v) ==> meta_path_in(f@, i, a, path@) == Some(v@.map_values(|s: String| s@)),
{
    let attr = match &f.tree.items[i] { syn::Item::Mod(m) => m.attrs.get(a)?, _ => return None };
    let mut meta: syn::Meta = attr.parse_args().ok()?;
    for k in path.iter() {
        let list = match &meta { syn::Meta::List(l) => l, _ => return None };
        meta = list.parse_args_with(Punctuated::<syn::Meta, syn::token::Comma>::parse_terminated).ok()?.into_iter().nth(*k)?;
    }
    Some(meta.path().segments.iter().map(|s| s.ident.to_string()).collect())
}

/// Whether the `use` tree below `path` can be read within `fuel` steps down:
/// each node is there, and a path or group node has fuel left for its
/// children.
pub open spec fn unfolds(t: Seq<char>, i: usize, path: Seq<usize>, fuel: nat) -> bool
    decreases fuel, 1int, 0int,
{
    match use_node_in(t, i, path) {
        None => false,
        Some(n) => if n.0 == NodeTag::Path {
            fuel > 0 && unfolds(t, i, path.push(0), (fuel - 1) as nat)
        } else if n.0 == NodeTag::Group {
            fuel > 0 && children_unfold(t, i, path, fuel, n.3 as int)
        } else {
            true
        },
    }
}

/// Whether the first `k` children of the group node at `path` can be read
/// with the fuel left below `fuel`.
pub open spec fn children_unfold(t: Seq<char>, i: usize, path: Seq<usize>, fuel: nat, k: int) -> bool
    decreases fuel, 0int, k,
{
    if k <= 0 || fuel == 0 {
        k <= 0
    } else {
        children_unfold(t, i, path, fuel, k - 1) && unfolds(t, i, path.push((k - 1) as usize), (fuel - 1) as nat)
    }
}

/// Whether `tree` is the `use` tree read below `path` within `fuel` steps:
/// node by node, the same tags, idents and children.
pub open spec fn tree_fits(tree: UseTree, t: Seq<char>, i: usize, path: Seq<usize>, fuel: nat) -> bool
    decreases tree, 1int,
{
    match use_node_in(t, i, path) {
        None => false,
        Some(n) => match tree {
            UseTree::Path(id, sub) => n.0 == NodeTag::Path && n.1 == id@ && fuel > 0 && tree_fits(
                *sub,
                t,
                i,
                path.push(0),
                (fuel - 1) as nat,
            ),
            UseTree::Name(id) => n.0 == NodeTag::Name && n.1 == id@,
            UseTree::Rename(a, b) => n.0 == NodeTag::Rename && n.1 == a@ && n.2 == b@,
            UseTree::Glob => n.0 == NodeTag::Glob,
            UseTree::Group(items) => n.0 == NodeTag::Group && fuel > 0 && items@.len() == n.3 && children_fit(
                items@,
                t,
                i,
                path,
                (fuel - 1) as nat,
                items@.len() as int,
            ),
        },
    }
}

/// Whether the first `k` of `items` are the children read below `path`.
pub open spec fn children_fit(items: Seq<UseTree>, t: Seq<char>, i: usize, path: Seq<usize>, fuel: nat, k: int) -> bool
    decreases items, k,
{
    if k <= 0 {
        true
    } else if k > items.len() {
        false
    } else {
        children_fit(items, t, i, path, fuel, k - 1) && tree_fits(items[k - 1], t, i, path.push((k - 1) as usize), fuel)
    }
}

/// Children that unfold up to `k` unfold up to any `j` before, and the
/// `j`-th of them unfolds.
pub proof fn lemma_children_unfold(t: Seq<char>, i: usize, path: Seq<usize>, fuel: nat, j: int, k: int)
    requires
        0 <= j < k,
        children_unfold(t, i, path, fuel, k),
    ensures
        children_unfold(t, i, path, fuel, j),
        fuel > 0 && unfolds(t, i, path.push(j as usize), (fuel - 1) as nat),
    decreases k,
{
    if j < k - 1 {
        lemma_children_unfold(t, i, path, fuel, j, k - 1);
    }
}

/// Whether children fit up to `k` depends on the first `k` of them only.
pub proof fn lemma_children_fit_prefix(a: Seq<UseTree>, b: Seq<UseTree>, t: Seq<char>, i: usize, path: Seq<usize>, fuel: nat, k: int)
    requires
        0 <= k <= a.len(),
        k <= b.len(),
        forall|q: int| 0 <= q < k ==> a[q] == b[q],
    ensures
        children_fit(a, t, i, path, fuel, k) == children_fit(b, t, i, path, fuel, k),
    decreases k,
{
    if k > 0 {
        lemma_children_fit_prefix(a, b, t, i, path, fuel, k - 1);
    }
}

/// `path` with one more step.
fn extended(path: &Vec<usize>, k: usize) -> (res: Vec<usize>)
    ensures
        res@ == path@.push(k),
{
    let mut res: Vec<usize> = Vec::new();
    let mut q: usize = 0;
    while q < path.len()
        invariant
            q <= path@.len(),
            res@ == path@.take(q as int),
        decreases path.len() - q,
    {
        res.push(path[q]);
        q = q + 1;
        assert(res@ =~= path@.take(q as int));
    }
    assert(path@.take(path@.len() as int) =~= path@);
    res.push(k);
    res
}

/// Read the `use` tree of the `i`-th item below `path`, at most `fuel`
/// steps down; `None` where a node is missing or the fuel runs out.
fn build_use(f: &SyntaxFile, i: usize, path: &Vec<usize>, fuel: usize) -> (res: Option<UseTree>)
    requires
        i < items_in(f@),
    ensures
        res is Some <==> unfolds(f@, i, path@, fuel as nat),
        res matches Some(tree) ==> tree_fits(tree, f@, i, path@, fuel as nat),
    decreases fuel,
{
    let node = match use_node(f, i, path) {
        None => {
            return None;
        },
        Some(n) => n,
    };
    match node.tag {
        NodeTag::Path => {
            if fuel == 0 {
                return None;
            }
            let child = extended(path, 0);
            match build_use(f, i, &child, fuel - 1) {
                Some(sub) => Some(UseTree::Path(node.name, Box::new(sub))),
                None => None,
            }
        },
        NodeTag::Name => Some(UseTree::Name(node.name)),
        NodeTag::Rename => Some(UseTree::Rename(node.name, node.rename)),
        NodeTag::Glob => Some(UseTree::Glob),
        NodeTag::Group => {
            if fuel == 0 {
                return None;
            }
            let ghost t = f@;
            let ghost p = path@;
            let mut items: Vec<UseTree> = Vec::new();
            let mut k: usize = 0;
            while k < node.count
                invariant
                    i < items_in(f@),
                    t == f@,
                    p == path@,
                    fuel > 0,
                    use_node_in(t, i, p) == Some((node.tag, node.name@, node.rename@, node.count)),
                    node.tag == NodeTag::Group,
                    k <= node.count,
                    items@.len() == k,
                    children_unfold(t, i, p, fuel as nat, k as int),
                    children_fit(items@, t, i, p, (fuel - 1) as nat, k as int),
                decreases node.count - k,
            {
                let child = extended(path, k);
                match build_use(f, i, &child, fuel - 1) {
                    Some(sub) => {
                        let ghost before = items@;
                        items.push(sub);
                        proof {
                            lemma_children_fit_prefix(before, items@, t, i, p, (fuel - 1) as nat, k as int);
                        }
                    },
                    None => {
                        proof {
                            if children_unfold(t, i, p, fuel as nat, node.count as int) {
                                lemma_children_unfold(t, i, p, fuel as nat, k as int, node.count as int);
                            }
                        }
                        return None;
                    },
                }
                k = k + 1;
            }
            Some(UseTree::Group(items))
        },
    }
}

/// The visibility read as a `Visibility`: the path of `pub(..)` written out.
pub open spec fn vis_fits(vis: Visibility, v: (VisKind, bool, Seq<Seq<char>>)) -> bool {
    match vis {
        Visibility::Public => v.0 == VisKind::Public,
        Visibility::Restricted { in_token, path } => v.0 == VisKind::Restricted && in_token == v.1 && path@
            == join_colons(v.2),
        Visibility::Inherited => v.0 == VisKind::Inherited,
    }
}

/// The visibility of the `i`-th item.
fn visibility_of(f: &SyntaxFile, i: usize) -> (res: Visibility)
    requires
        i < items_in(f@),
    ensures
        vis_fits(res, vis_in(f@, i)),
{
    let (kind, in_token) = item_vis_kind(f, i);
    match kind {
        VisKind::Public => Visibility::Public,
        VisKind::Inherited => Visibility::Inherited,
        VisKind::Restricted => {
            let segments = item_vis_path(f, i);
            let mut parts: Vec<Vec<char>> = Vec::new();
            let mut q: usize = 0;
            while q < segments.len()
                invariant
                    q <= segments@.len(),
                    parts@.len() == q,
                    forall|r: int| 0 <= r < q ==> (#[trigger] parts@[r])@ == segments@[r]@,
                decreases segments.len() - q,
            {
                let c = chars_of(segments[q].as_str());
                parts.push(c);
                q = q + 1;
            }
            assert(parts@.map_values(|v: Vec<char>| v@) =~= segments@.map_values(|s: String| s@));
            let joined = join_on_colons(&parts);
            Visibility::Restricted { in_token, path: string_of(joined.as_slice()) }
        },
    }
}

/// The kind of definition an item is, where it is one.
pub open spec fn def_kind(k: ItemKind) -> Option<DefKind> {
    match k {
        ItemKind::Fn => Some(DefKind::Fn),
        ItemKind::Struct => Some(DefKind::Struct),
        ItemKind::Enum => Some(DefKind::Enum),
        ItemKind::Trait => Some(DefKind::Trait),
        ItemKind::Const => Some(DefKind::Const),
        ItemKind::Static => Some(DefKind::Static),
        ItemKind::Type => Some(DefKind::Type),
        _ => None,
    }
}

/// The idents of the first `k` variants of the `i`-th item.
pub open spec fn variants_upto(t: Seq<char>, i: usize, k: int) -> Seq<Seq<char>>
    decreases k,
{
    if k <= 0 {
        Seq::empty()
    } else {
        variants_upto(t, i, k - 1).push(variant_in(t, i, (k - 1) as usize))
    }
}

/// The idents of the members tagged `tag` among the first `k` members of
/// the `i`-th item, in order.
pub open spec fn members_upto(t: Seq<char>, i: usize, tag: MemberTag, k: int) -> Seq<Seq<char>>
    decreases k,
{
    if k <= 0 {
        Seq::empty()
    } else if member_in(t, i, (k - 1) as usize).0 == tag {
        members_upto(t, i, tag, k - 1).push(member_in(t, i, (k - 1) as usize).1)
    } else {
        members_upto(t, i, tag, k - 1)
    }
}

/// The contents of a list of strings.
pub open spec fn strs(v: Seq<String>) -> Seq<Seq<char>> {
    v.map_values(|s: String| s@)
}

/// The variants of the `i`-th item, in order.
fn variant_names(f: &SyntaxFile, i: usize) -> (res: Vec<String>)
    requires
        i < items_in(f@),
    ensures
        strs(res@) == variants_upto(f@, i, member_count_in(f@, i) as int),
{
    let count = member_count(f, i);
    let mut res: Vec<String> = Vec::new();
    let mut j: usize = 0;
    while j < count
        invariant
            i < items_in(f@),
            count == member_count_in(f@, i),
            j <= count,
            strs(res@) == variants_upto(f@, i, j as int),
        decreases count - j,
    {
        let v = variant(f, i, j);
        res.push(v);
        j = j + 1;
        assert(strs(res@) =~= variants_upto(f@, i, j as int));
    }
    res
}

/// The members tagged `tag` of the `i`-th item, in order.
fn member_names(f: &SyntaxFile, i: usize, tag: MemberTag) -> (res: Vec<String>)
    requires
        i < items_in(f@),
    ensures
        strs(res@) == members_upto(f@, i, tag, member_count_in(f@, i) as int),
{
    let count = member_count(f, i);
    let mut res: Vec<String> = Vec::new();
    let mut j: usize = 0;
    while j < count
        invariant
            i < items_in(f@),
            count == member_count_in(f@, i),
            j <= count,
            strs(res@) == members_upto(f@, i, tag, j as int),
        decreases count - j,
    {
        let mt = member_tag(f, i, j);
        if mt == tag {
            let name = member_name(f, i, j);
            res.push(name);
        }
        j = j + 1;
        assert(strs(res@) =~= members_upto(f@, i, tag, j as int));
    }
    res
}

/// The contents of an optional list of strings.
pub open spec fn opt_strs(v: Option<Vec<String>>) -> Option<Seq<Seq<char>>> {
    match v {
        Some(s) => Some(strs(s@)),
        None => None,
    }
}

/// Whether `item` is the `i`-th item of the text read as a `FileItem`: a
/// `use` with its visibility and tree; a named definition with its kind,
/// ident, visibility and line, an enum's variants and a trait's fns and
/// consts; an impl block with the path of its self type and its fns and
/// consts; anything else, modules included, as other.
pub open spec fn item_fits(item: FileItem, t: Seq<char>, i: usize) -> bool {
    let kind = kind_in(t, i);
    let count = member_count_in(t, i) as int;
    match item {
        FileItem::Use { tree, vis } => kind == ItemKind::Use && vis_fits(vis, vis_in(t, i)) && tree_fits(
            tree,
            t,
            i,
            Seq::empty(),
            t.len(),
        ),
        FileItem::Definition { name, kind: dk, vis, line, variants, fns, consts } => {
            &&& def_kind(kind) == Some(dk)
            &&& name@ == ident_in(t, i)
            &&& vis_fits(vis, vis_in(t, i))
            &&& line == line_in(t, i)
            &&& strs(variants@) == if kind == ItemKind::Enum {
                variants_upto(t, i, count)
            } else {
                Seq::empty()
            }
            &&& strs(fns@) == if kind == ItemKind::Trait {
                members_upto(t, i, MemberTag::Fn, count)
            } else {
                Seq::empty()
            }
            &&& strs(consts@) == if kind == ItemKind::Trait {
                members_upto(t, i, MemberTag::Const, count)
            } else {
                Seq::empty()
            }
        },
        FileItem::Impl { self_path, fns, consts } => {
            &&& kind == ItemKind::Impl
            &&& opt_strs(self_path) == self_path_in(t, i)
            &&& strs(fns@) == members_upto(t, i, MemberTag::Fn, count)
            &&& strs(consts@) == members_upto(t, i, MemberTag::Const, count)
        },
        FileItem::Other => kind == ItemKind::Mod || kind == ItemKind::Other,
    }
}

/// Whether the `i`-th item can be read: a `use` item's tree unfolds within
/// as many steps as the text has characters.
pub open spec fn item_reads(t: Seq<char>, i: usize) -> bool {
    kind_in(t, i) == ItemKind::Use ==> unfolds(t, i, Seq::empty(), t.len())
}

/// Read the `i`-th item of the parsed file.
fn read_item(f: &SyntaxFile, i: usize, fuel: usize) -> (res: Option<FileItem>)
    requires
        i < items_in(f@),
        fuel == f@.len(),
    ensures
        res is Some <==> item_reads(f@, i),
        res matches Some(item) ==> item_fits(item, f@, i),
{
    let kind = item_kind(f, i);
    match kind {
        ItemKind::Use => {
            let vis = visibility_of(f, i);
            let root: Vec<usize> = Vec::new();
            assert(root@ =~= Seq::<usize>::empty());
            match build_use(f, i, &root, fuel) {
                Some(tree) => Some(FileItem::Use { tree, vis }),
                None => None,
            }
        },
        ItemKind::Impl => {
            let self_path = self_path(f, i);
            let fns = member_names(f, i, MemberTag::Fn);
            let consts = member_names(f, i, MemberTag::Const);
            Some(FileItem::Impl { self_path, fns, consts })
        },
        ItemKind::Mod | ItemKind::Other => Some(FileItem::Other),
        _ => {
            let dk = match kind {
                ItemKind::Fn => DefKind::Fn,
                ItemKind::Struct => DefKind::Struct,
                ItemKind::Enum => DefKind::Enum,
                ItemKind::Trait => DefKind::Trait,
                ItemKind::Const => DefKind::Const,
                ItemKind::Static => DefKind::Static,
                _ => DefKind::Type,
            };
            let variants = if kind == ItemKind::Enum {
                variant_names(f, i)
            } else {
                let v: Vec<String> = Vec::new();
                assert(strs(v@) =~= Seq::<Seq<char>>::empty());
                v
            };
            let (fns, consts) = if kind == ItemKind::Trait {
                (member_names(f, i, MemberTag::Fn), member_names(f, i, MemberTag::Const))
            } else {
                let a: Vec<String> = Vec::new();
                let b: Vec<String> = Vec::new();
                assert(strs(a@) =~= Seq::<Seq<char>>::empty());
                assert(strs(b@) =~= Seq::<Seq<char>>::empty());
                (a, b)
            };
            let name = item_ident(f, i);
            let vis = visibility_of(f, i);
            let line = item_line(f, i);
            assert(def_kind(kind) == Some(dk));
            Some(FileItem::Definition { name, kind: dk, vis, line, variants, fns, consts })
        },
    }
}

/// Whether a source text parses and each of its items can be read.
pub open spec fn file_reads(t: Seq<char>) -> bool {
    parses(t) && forall|i: usize| i < items_in(t) ==> #[trigger] item_reads(t, i)
}

/// Whether `items` are the items of the text, each read as [`item_fits`]
/// says.
pub open spec fn file_fits(items: Seq<FileItem>, t: Seq<char>) -> bool {
    items.len() == items_in(t) && forall|i: int| 0 <= i < items.len() ==> item_fits(#[trigger] items[i], t, i as usize)
}

/// The top-level items of a module file's source text, as re-export
/// collection reads them; `None` where the text does not parse.
pub fn parse_file_items(source: &str) -> (res: Option<Vec<FileItem>>)
    ensures
        res is Some <==> file_reads(source@),
        res matches Some(items) ==> file_fits(items@, source@),
{
    let f = match parse_syntax(source) {
        Some(f) => f,
        None => {
            return None;
        },
    };
    let fuel = chars_of(source).len();
    let count = item_count(&f);
    let mut items: Vec<FileItem> = Vec::new();
    let mut i: usize = 0;
    while i < count
        invariant
            f@ == source@,
            fuel == f@.len(),
            count == items_in(f@),
            i <= count,
            items@.len() == i,
            forall|q: int| 0 <= q < i ==> item_fits(#[trigger] items@[q], f@, q as usize),
            forall|q: usize| q < i ==> #[trigger] item_reads(f@, q),
        decreases count - i,
    {
        match read_item(&f, i, fuel) {
            Some(item) => {
                let ghost before = items@;
                items.push(item);
                proof {
                    assert forall|q: int| 0 <= q < i + 1 implies item_fits(#[trigger] items@[q], f@, q as usize) by {
                        if q < i {
                            assert(items@[q] == before[q]);
                        }
                    }
                }
            },
            None => {
                assert(!item_reads(f@, i));
                return None;
            },
        }
        i = i + 1;
    }
    Some(items)
}


/// Collect a module file's exports from its source text: its items as
/// [`parse_file_items`] reads them, then [`collect_module_info`] on them;
/// `None`, with nothing collected, where the text cannot be read.
pub fn collect_module_file(
    ctx: &ResolutionContext,
    source: &str,
    out_of_module_impls: &mut Vec<OutOfModuleImpl>,
) -> (res: Option<ModuleExportInfo>)
    ensures
        res is Some <==> file_reads(source@),
        res is None ==> final(out_of_module_impls)@ == old(out_of_module_impls)@,
        res matches Some(info) ==> exists|items: Seq<FileItem>|
            #[trigger] file_fits(items, source@) && ({
                let first = first_pass(no_exports(), ctx@, items, items.len() as int);
                let second = second_pass(first, ctx@, items, items.len() as int);
                &&& exports_view(info) == second.0
                &&& final(out_of_module_impls)@.map_values(|o: OutOfModuleImpl| out_view(o)) == old(
                    out_of_module_impls,
                )@.map_values(|o: OutOfModuleImpl| out_view(o)) + second.1
            }),
{
    match parse_file_items(source) {
        Some(items) => {
            let info = collect_module_info(ctx, &items, out_of_module_impls);
            assert(file_fits(items@, source@));
            Some(info)
        },
        None => None,
    }
}


/// Whether the predicate below `path` can be read within `fuel` steps down:
/// each predicate is there with its path, and a list whose arguments parse
/// has fuel left for them.
pub open spec fn meta_unfolds(t: Seq<char>, i: usize, a: usize, path: Seq<usize>, fuel: nat) -> bool
    decreases fuel, 1int, 0int,
{
    match meta_tag_in(t, i, a, path) {
        None => false,
        Some(n) => (n.0 == MetaTag::Other || meta_path_in(t, i, a, path) is Some) && if n.0 == MetaTag::List
            && n.1 is Some {
            fuel > 0 && metas_unfold(t, i, a, path, fuel, n.1->0 as int)
        } else {
            true
        },
    }
}

/// Whether the first `k` predicates of the list below `path` can be read
/// with the fuel left below `fuel`.
pub open spec fn metas_unfold(t: Seq<char>, i: usize, a: usize, path: Seq<usize>, fuel: nat, k: int) -> bool
    decreases fuel, 0int, k,
{
    if k <= 0 || fuel == 0 {
        k <= 0
    } else {
        metas_unfold(t, i, a, path, fuel, k - 1) && meta_unfolds(t, i, a, path.push((k - 1) as usize), (fuel - 1) as nat)
    }
}

/// Whether `m` is the predicate read below `path` within `fuel` steps: a
/// bare name or a list with its path written out, a list with the
/// predicates its arguments parse into where they do, anything else as
/// other.
pub open spec fn meta_fits(m: CfgMeta, t: Seq<char>, i: usize, a: usize, path: Seq<usize>, fuel: nat) -> bool
    decreases m, 1int,
{
    match meta_tag_in(t, i, a, path) {
        None => false,
        Some(n) => match m {
            CfgMeta::Path(name) => n.0 == MetaTag::Path && meta_path_in(t, i, a, path) is Some && name@ == join_colons(
                meta_path_in(t, i, a, path)->0,
            ),
            CfgMeta::List(name, nested) => n.0 == MetaTag::List && meta_path_in(t, i, a, path) is Some && name@
                == join_colons(meta_path_in(t, i, a, path)->0) && match nested {
                None => n.1 is None,
                Some(items) => n.1 == Some(items@.len() as usize) && fuel > 0 && metas_fit(
                    items@,
                    t,
                    i,
                    a,
                    path,
                    (fuel - 1) as nat,
                    items@.len() as int,
                ),
            },
            CfgMeta::Other => n.0 == MetaTag::Other,
        },
    }
}

/// Whether the first `k` of `items` are the predicates read below `path`.
pub open spec fn metas_fit(items: Seq<CfgMeta>, t: Seq<char>, i: usize, a: usize, path: Seq<usize>, fuel: nat, k: int) -> bool
    decreases items, k,
{
    if k <= 0 {
        true
    } else if k > items.len() {
        false
    } else {
        metas_fit(items, t, i, a, path, fuel, k - 1) && meta_fits(items[k - 1], t, i, a, path.push((k - 1) as usize), fuel)
    }
}

/// Lists that unfold up to `k` unfold up to any `j` before, and the `j`-th
/// predicate unfolds.
pub proof fn lemma_metas_unfold(t: Seq<char>, i: usize, a: usize, path: Seq<usize>, fuel: nat, j: int, k: int)
    requires
        0 <= j < k,
        metas_unfold(t, i, a, path, fuel, k),
    ensures
        metas_unfold(t, i, a, path, fuel, j),
        fuel > 0 && meta_unfolds(t, i, a, path.push(j as usize), (fuel - 1) as nat),
    decreases k,
{
    if j < k - 1 {
        lemma_metas_unfold(t, i, a, path, fuel, j, k - 1);
    }
}

/// Whether predicates fit up to `k` depends on the first `k` only.
pub proof fn lemma_metas_fit_prefix(x: Seq<CfgMeta>, y: Seq<CfgMeta>, t: Seq<char>, i: usize, a: usize, path: Seq<usize>, fuel: nat, k: int)
    requires
        0 <= k <= x.len(),
        k <= y.len(),
        forall|q: int| 0 <= q < k ==> x[q] == y[q],
    ensures
        metas_fit(x, t, i, a, path, fuel, k) == metas_fit(y, t, i, a, path, fuel, k),
    decreases k,
{
    if k > 0 {
        lemma_metas_fit_prefix(x, y, t, i, a, path, fuel, k - 1);
    }
}

/// Segments written out with `::` between them.
fn joined(segments: &Vec<String>) -> (res: String)
    ensures
        res@ == join_colons(segments@.map_values(|s: String| s@)),
{
    let mut parts: Vec<Vec<char>> = Vec::new();
    let mut q: usize = 0;
    while q < segments.len()
        invariant
            q <= segments@.len(),
            parts@.len() == q,
            forall|r: int| 0 <= r < q ==> (#[trigger] parts@[r])@ == segments@[r]@,
        decreases segments.len() - q,
    {
        let c = chars_of(segments[q].as_str());
        parts.push(c);
        q = q + 1;
    }
    assert(parts@.map_values(|v: Vec<char>| v@) =~= segments@.map_values(|s: String| s@));
    let j = join_on_colons(&parts);
    string_of(j.as_slice())
}

/// Read the predicate below `path` of the `a`-th attribute of the `i`-th
/// module, at most `fuel` steps down; `None` where a predicate is missing or
/// the fuel runs out.
fn build_meta(f: &SyntaxFile, i: usize, a: usize, path: &Vec<usize>, fuel: usize) -> (res: Option<CfgMeta>)
    requires
        i < items_in(f@),
    ensures
        res is Some <==> meta_unfolds(f@, i, a, path@, fuel as nat),
        res matches Some(m) ==> meta_fits(m, f@, i, a, path@, fuel as nat),
    decreases fuel,
{
    let (tag, nested) = match meta_tag(f, i, a, path) {
        None => {
            return None;
        },
        Some(n) => n,
    };
    if tag == MetaTag::Other {
        return Some(CfgMeta::Other);
    }
    let segments = match meta_path(f, i, a, path) {
        None => {
            return None;
        },
        Some(s) => s,
    };
    let name = joined(&segments);
    if tag == MetaTag::Path {
        return Some(CfgMeta::Path(name));
    }
    let count = match nested {
        None => {
            return Some(CfgMeta::List(name, None));
        },
        Some(c) => c,
    };
    if fuel == 0 {
        return None;
    }
    let ghost t = f@;
    let ghost p = path@;
    let mut items: Vec<CfgMeta> = Vec::new();
    let mut k: usize = 0;
    while k < count
        invariant
            i < items_in(f@),
            t == f@,
            p == path@,
            fuel > 0,
            meta_tag_in(t, i, a, p) == Some((tag, Some(count))),
            tag == MetaTag::List,
            k <= count,
            items@.len() == k,
            metas_unfold(t, i, a, p, fuel as nat, k as int),
            metas_fit(items@, t, i, a, p, (fuel - 1) as nat, k as int),
        decreases count - k,
    {
        let child = extended(path, k);
        match build_meta(f, i, a, &child, fuel - 1) {
            Some(m) => {
                let ghost before = items@;
                items.push(m);
                proof {
                    lemma_metas_fit_prefix(before, items@, t, i, a, p, (fuel - 1) as nat, k as int);
                }
            },
            None => {
                proof {
                    if metas_unfold(t, i, a, p, fuel as nat, count as int) {
                        lemma_metas_unfold(t, i, a, p, fuel as nat, k as int, count as int);
                    }
                }
                return None;
            },
        }
        k = k + 1;
    }
    Some(CfgMeta::List(name, Some(items)))
}

/// `path`
pub open spec fn path_word() -> Seq<char> {
    seq!['p', 'a', 't', 'h']
}

/// Whether the `a`-th attribute of the `i`-th module is read off: a
/// `#[cfg(..)]` attribute whose arguments parse has its predicate unfold.
pub open spec fn attr_reads(t: Seq<char>, i: usize, a: usize) -> bool {
    attr_path_in(t, i, a) == seq![cfg_word()] && meta_tag_in(t, i, a, Seq::empty()) is Some ==> meta_unfolds(
        t,
        i,
        a,
        Seq::empty(),
        t.len(),
    )
}

/// Whether `attr` is the `a`-th attribute of the `i`-th module: its path
/// written out, and for `#[cfg(..)]` the predicate its arguments parse
/// into, where they do.
pub open spec fn attr_fits(attr: CfgAttribute, t: Seq<char>, i: usize, a: usize) -> bool {
    &&& attr.path@ == join_colons(attr_path_in(t, i, a))
    &&& if attr_path_in(t, i, a) == seq![cfg_word()] && meta_tag_in(t, i, a, Seq::empty()) is Some {
        attr.meta matches Some(m) && meta_fits(m, t, i, a, Seq::empty(), t.len())
    } else {
        attr.meta is None
    }
}

/// The string of the first `#[path = ".."]` among the first `k` attributes
/// of the `i`-th module.
pub open spec fn first_path_attr(t: Seq<char>, i: usize, k: int) -> Option<Seq<char>>
    decreases k,
{
    if k <= 0 {
        None
    } else {
        match first_path_attr(t, i, k - 1) {
            Some(v) => Some(v),
            None => if attr_path_in(t, i, (k - 1) as usize) == seq![path_word()] {
                attr_string_in(t, i, (k - 1) as usize)
            } else {
                None
            },
        }
    }
}

/// Whether the attributes of the `i`-th module are read off.
pub open spec fn mod_reads(t: Seq<char>, i: usize) -> bool {
    forall|a: usize| a < attr_count_in(t, i) ==> #[trigger] attr_reads(t, i, a)
}

/// Whether `m` is the `i`-th item of the text read as a module: its ident,
/// whether inline, its attributes and its `#[path = ".."]`.
pub open spec fn mod_fits(m: ModItem, t: Seq<char>, i: usize) -> bool {
    &&& m.name@ == ident_in(t, i)
    &&& m.inline == inline_in(t, i)
    &&& m.attrs@.len() == attr_count_in(t, i)
    &&& forall|a: int| 0 <= a < m.attrs@.len() ==> attr_fits(#[trigger] m.attrs@[a], t, i, a as usize)
    &&& match m.path_attribute {
        Some(p) => first_path_attr(t, i, attr_count_in(t, i) as int) == Some(p@),
        None => first_path_attr(t, i, attr_count_in(t, i) as int) is None,
    }
}

/// Whether a segment list is the one word `w`.
fn is_word(segments: &Vec<String>, w: &Vec<char>) -> (res: bool)
    ensures
        res == (segments@.map_values(|s: String| s@) == seq![w@]),
{
    if segments.len() != 1 {
        proof {
            if segments@.map_values(|s: String| s@) == seq![w@] {
                assert(segments@.map_values(|s: String| s@).len() == 1);
            }
        }
        return false;
    }
    let r = crate::text::seq_eq(&chars_of(segments[0].as_str()), w);
    proof {
        if r {
            assert(segments@.map_values(|s: String| s@) =~= seq![w@]);
        } else {
            if segments@.map_values(|s: String| s@) == seq![w@] {
                assert(segments@.map_values(|s: String| s@)[0] == w@);
            }
        }
    }
    r
}

/// Read the `i`-th item of the parsed file as a module.
fn read_mod(f: &SyntaxFile, i: usize, fuel: usize) -> (res: Option<ModItem>)
    requires
        i < items_in(f@),
        fuel == f@.len(),
    ensures
        res is Some <==> mod_reads(f@, i),
        res matches Some(m) ==> mod_fits(m, f@, i),
{
    let cfg = vec!['c', 'f', 'g'];
    let path_chars = vec!['p', 'a', 't', 'h'];
    assert(cfg@ =~= cfg_word());
    assert(path_chars@ =~= path_word());
    let count = attr_count(f, i);
    let mut attrs: Vec<CfgAttribute> = Vec::new();
    let mut path_attribute: Option<String> = None;
    let root: Vec<usize> = Vec::new();
    assert(root@ =~= Seq::<usize>::empty());
    let mut a: usize = 0;
    while a < count
        invariant
            i < items_in(f@),
            fuel == f@.len(),
            count == attr_count_in(f@, i),
            cfg@ == cfg_word(),
            path_chars@ == path_word(),
            root@ == Seq::<usize>::empty(),
            a <= count,
            attrs@.len() == a,
            forall|q: int| 0 <= q < a ==> attr_fits(#[trigger] attrs@[q], f@, i, q as usize),
            forall|q: usize| q < a ==> #[trigger] attr_reads(f@, i, q),
            match path_attribute {
                Some(p) => first_path_attr(f@, i, a as int) == Some(p@),
                None => first_path_attr(f@, i, a as int) is None,
            },
        decreases count - a,
    {
        let segments = attr_path(f, i, a);
        let path = joined(&segments);
        let meta = if is_word(&segments, &cfg) {
            match meta_tag(f, i, a, &root) {
                None => None,
                Some(_) => match build_meta(f, i, a, &root, fuel) {
                    Some(m) => Some(m),
                    None => {
                        assert(!attr_reads(f@, i, a));
                        return None;
                    },
                },
            }
        } else {
            None
        };
        if path_attribute.is_none() && is_word(&segments, &path_chars) {
            path_attribute = attr_string(f, i, a);
        }
        let ghost before = attrs@;
        let attr = CfgAttribute { path, meta };
        assert(attr_fits(attr, f@, i, a));
        attrs.push(attr);
        proof {
            assert forall|q: int| 0 <= q < a + 1 implies attr_fits(#[trigger] attrs@[q], f@, i, q as usize) by {
                if q < a {
                    assert(attrs@[q] == before[q]);
                }
            }
        }
        a = a + 1;
    }
    let name = item_ident(f, i);
    let inline = mod_inline(f, i);
    Some(ModItem { name, inline, attrs, path_attribute })
}

/// The positions of the modules among the first `k` items of the text.
pub open spec fn mod_positions(t: Seq<char>, k: int) -> Seq<usize>
    decreases k,
{
    if k <= 0 {
        Seq::empty()
    } else if kind_in(t, (k - 1) as usize) == ItemKind::Mod {
        mod_positions(t, k - 1).push((k - 1) as usize)
    } else {
        mod_positions(t, k - 1)
    }
}

/// Whether a source text parses and each of its modules' attributes can be
/// read.
pub open spec fn mods_read(t: Seq<char>) -> bool {
    parses(t) && forall|i: usize| i < items_in(t) && kind_in(t, i) == ItemKind::Mod ==> #[trigger] mod_reads(t, i)
}

/// The `mod` items at the top level of a source text, in order, as module
/// discovery reads them; `None` where the text does not parse.
pub fn parse_mod_items(source: &str) -> (res: Option<Vec<ModItem>>)
    ensures
        res is Some <==> mods_read(source@),
        res matches Some(mods) ==> {
            let pos = mod_positions(source@, items_in(source@) as int);
            &&& mods@.len() == pos.len()
            &&& forall|q: int| 0 <= q < mods@.len() ==> mod_fits(#[trigger] mods@[q], source@, pos[q])
        },
{
    let f = match parse_syntax(source) {
        Some(f) => f,
        None => {
            return None;
        },
    };
    let fuel = chars_of(source).len();
    let count = item_count(&f);
    let mut mods: Vec<ModItem> = Vec::new();
    let mut i: usize = 0;
    while i < count
        invariant
            f@ == source@,
            fuel == f@.len(),
            count == items_in(f@),
            i <= count,
            mods@.len() == mod_positions(f@, i as int).len(),
            forall|q: int| 0 <= q < mods@.len() ==> mod_fits(#[trigger] mods@[q], f@, mod_positions(f@, i as int)[q]),
            forall|q: usize| q < i && kind_in(f@, q) == ItemKind::Mod ==> #[trigger] mod_reads(f@, q),
        decreases count - i,
    {
        if item_kind(&f, i) == ItemKind::Mod {
            match read_mod(&f, i, fuel) {
                Some(m) => {
                    let ghost before = mods@;
                    mods.push(m);
                    proof {
                        let pos = mod_positions(f@, i + 1);
                        assert(pos == mod_positions(f@, i as int).push(i));
                        assert forall|q: int| 0 <= q < mods@.len() implies mod_fits(#[trigger] mods@[q], f@, pos[q]) by {
                            if q < before.len() {
                                assert(mods@[q] == before[q]);
                            }
                        }
                    }
                },
                None => {
                    assert(!mod_reads(f@, i));
                    return None;
                },
            }
        }
        i = i + 1;
    }
    Some(mods)
}

} // verus!
