//! Re-export collection: the public definitions, associated items, named
//! and glob re-exports, and private bindings of one module file, read off
//! its items.

use vstd::prelude::*;

use crate::analyze::bindings::{last_path_segment, last_segment};
use crate::analyze::categories::{is_glob, star};
use crate::analyze::exports::{owned, str_views, AssociatedItems, ModuleExportInfo, ReExportMap, ReExportTarget};
use crate::analyze::resolution::{resolve_single_path, single_path_dep, CtxView, ResolutionContext};
use crate::analyze::use_tree::{reexports, resolve_use_tree, tree_paths, UseTree, Visibility};
use crate::collections::{str_eq, StrMap, StrSet};
use crate::model::{normalize_crate_name, normalized, DefKind, Definition, EdgeContext, UsageKind};
use crate::text::join_colons;

verus! {

/// One item of a module file, as far as re-export collection reads it.
#[derive(Debug)]
pub enum FileItem {
    /// A `use` item.
    Use { tree: UseTree, vis: Visibility },
    /// A named definition. An enum carries its variants, a trait the names
    /// of its fns and consts.
    Definition {
        name: String,
        kind: DefKind,
        vis: Visibility,
        line: usize,
        variants: Vec<String>,
        fns: Vec<String>,
        consts: Vec<String>,
    },
    /// An `impl` block: the path of its self type where it is a path, and
    /// the names of its fns and consts.
    Impl { self_path: Option<Vec<String>>, fns: Vec<String>, consts: Vec<String> },
    /// Anything else.
    Other,
}

/// An `impl` block written in another module than the one defining its type.
#[derive(Debug)]
pub struct OutOfModuleImpl {
    /// The module that defines the type.
    pub module: String,
    pub type_ident: String,
    pub items: AssociatedItems,
}

/// Where the type of an `impl` block is defined.
#[derive(Debug)]
pub enum ImplOwner {
    ThisModule,
    Other(String),
}

/// A module's exports as plain values.
pub ghost struct ExportsView {
    pub definitions: Map<Seq<char>, Definition>,
    pub associated: Map<Seq<char>, (Set<Seq<char>>, Set<Seq<char>>, Set<Seq<char>>)>,
    pub explicit: Map<Seq<char>, (Seq<char>, Seq<char>)>,
    pub private_uses: Map<Seq<char>, (Seq<char>, Seq<char>)>,
    pub globs: Seq<Seq<char>>,
    pub private_globs: Seq<Seq<char>>,
}

/// The sets of associated items, as plain values.
pub open spec fn items_view(a: AssociatedItems) -> (Set<Seq<char>>, Set<Seq<char>>, Set<Seq<char>>) {
    (a.variants@, a.fns@, a.consts@)
}

/// A re-export target, as plain values.
pub open spec fn target_view(t: ReExportTarget) -> (Seq<char>, Seq<char>) {
    (t.module@, t.original_name@)
}

/// The exports of a module, as plain values.
pub open spec fn exports_view(info: ModuleExportInfo) -> ExportsView {
    ExportsView {
        definitions: info.definitions@,
        associated: info.associated@.map_values(|a: AssociatedItems| items_view(a)),
        explicit: info.explicit_reexports@.map_values(|t: ReExportTarget| target_view(t)),
        private_uses: info.private_uses@.map_values(|t: ReExportTarget| target_view(t)),
        globs: str_views(info.glob_sources@),
        private_globs: str_views(info.private_glob_sources@),
    }
}

/// No exports.
pub open spec fn no_exports() -> ExportsView {
    ExportsView {
        definitions: Map::empty(),
        associated: Map::empty(),
        explicit: Map::empty(),
        private_uses: Map::empty(),
        globs: Seq::empty(),
        private_globs: Seq::empty(),
    }
}

/// The exports after one path of a `use`: a glob adds its module as a glob
/// source, a named item adds a re-export under the name the `use` binds;
/// a private `use` lands in the private lists. A path the chain cannot
/// place adds nothing.
pub open spec fn reexport_pair(
    v: ExportsView,
    c: CtxView,
    alias_path: Seq<char>,
    original: Seq<char>,
    private: bool,
) -> ExportsView {
    match single_path_dep(c, original, 0, (UsageKind::Production, Seq::empty()), 0) {
        None => v,
        Some(d) => if d.target_item == Some(star()) {
            if private {
                ExportsView { private_globs: v.private_globs.push(d.target_module), ..v }
            } else {
                ExportsView { globs: v.globs.push(d.target_module), ..v }
            }
        } else {
            match d.target_item {
                Some(name) => {
                    let t = (d.target_module, name);
                    if private {
                        ExportsView { private_uses: v.private_uses.insert(last_segment(alias_path), t), ..v }
                    } else {
                        ExportsView { explicit: v.explicit.insert(last_segment(alias_path), t), ..v }
                    }
                },
                None => v,
            }
        },
    }
}

/// The exports after the first `k` paths of a `use`.
pub open spec fn reexport_pairs(
    v: ExportsView,
    c: CtxView,
    aliases: Seq<Seq<char>>,
    originals: Seq<Seq<char>>,
    private: bool,
    k: int,
) -> ExportsView
    decreases k,
{
    if k <= 0 {
        v
    } else {
        reexport_pair(reexport_pairs(v, c, aliases, originals, private, k - 1), c, aliases[k - 1], originals[k - 1], private)
    }
}

/// The exports after one `use` item.
pub open spec fn use_reexports(v: ExportsView, c: CtxView, tree: UseTree, private: bool) -> ExportsView {
    let aliases = tree_paths(tree, Seq::empty(), true);
    let originals = tree_paths(tree, Seq::empty(), false);
    let n = if aliases.len() < originals.len() {
        aliases.len()
    } else {
        originals.len()
    };
    reexport_pairs(v, c, aliases, originals, private, n as int)
}

/// A copy of a set of strings.
fn copy_set(s: &StrSet) -> (res: StrSet)
    ensures
        res@ == s@,
{
    let mut res = StrSet::new();
    proof {
        s.lemma_items();
    }
    let mut i: usize = 0;
    while i < s.len()
        invariant
            i <= s.item_seq().len(),
            forall|k: Seq<char>| s@.contains(k) <==> s.item_seq().contains(k),
            res@ == s.item_seq().take(i as int).to_set(),
        decreases s.item_seq().len() - i,
    {
        res.insert(s.item_at(i).clone());
        proof {
            s.item_seq().take(i as int).lemma_push_to_set_commute(s.item_seq()[i as int]);
            assert(s.item_seq().take(i + 1) =~= s.item_seq().take(i as int).push(s.item_seq()[i as int]));
        }
        i = i + 1;
    }
    assert(s.item_seq().take(i as int) =~= s.item_seq());
    assert(s.item_seq().to_set() =~= s@);
    res
}

/// A copy of a set of associated items.
fn copy_items(a: &AssociatedItems) -> (res: AssociatedItems)
    ensures
        items_view(res) == items_view(*a),
{
    AssociatedItems { variants: copy_set(&a.variants), fns: copy_set(&a.fns), consts: copy_set(&a.consts) }
}

/// The associated items of `name` with `items` merged in.
pub open spec fn merged_into(
    m: Map<Seq<char>, (Set<Seq<char>>, Set<Seq<char>>, Set<Seq<char>>)>,
    name: Seq<char>,
    items: (Set<Seq<char>>, Set<Seq<char>>, Set<Seq<char>>),
) -> Map<Seq<char>, (Set<Seq<char>>, Set<Seq<char>>, Set<Seq<char>>)> {
    if m.dom().contains(name) {
        m.insert(name, (m[name].0.union(items.0), m[name].1.union(items.1), m[name].2.union(items.2)))
    } else {
        m.insert(name, items)
    }
}

/// Merge `items` into the associated items of `name`.
fn merge_associated(map: &mut StrMap<AssociatedItems>, name: String, items: AssociatedItems)
    ensures
        final(map)@.map_values(|a: AssociatedItems| items_view(a)) == merged_into(
            old(map)@.map_values(|a: AssociatedItems| items_view(a)),
            name@,
            items_view(items),
        ),
{
    let ghost iv = items_view(items);
    let mut current = match map.get(name.as_str()) {
        Some(a) => copy_items(a),
        None => AssociatedItems::new(),
    };
    let ghost existing = items_view(current);
    current.merge(items);
    let ghost merged = items_view(current);
    let ghost nv = name@;
    map.insert(name, current);
    proof {
        let f = |a: AssociatedItems| items_view(a);
        if old(map)@.dom().contains(nv) {
            assert(merged == (existing.0.union(iv.0), existing.1.union(iv.1), existing.2.union(iv.2)));
        } else {
            assert(existing.0 =~= Set::<Seq<char>>::empty());
            assert(merged.0 =~= iv.0);
            assert(merged.1 =~= iv.1);
            assert(merged.2 =~= iv.2);
        }
        assert(map@.map_values(f) =~= merged_into(old(map)@.map_values(f), nv, iv));
    }
}

/// Resolve one `use` item into re-export entries. A `pub`, `pub(crate)` or
/// `pub(super)` `use` fills the named re-exports and glob sources; a
/// private `use` fills the private bindings and private glob sources,
/// which descendants can still name through this module.
pub fn collect_use_reexports(ctx: &ResolutionContext, tree: &UseTree, info: &mut ModuleExportInfo, private: bool)
    ensures
        exports_view(*final(info)) == use_reexports(exports_view(*old(info)), ctx@, *tree, private),
        final(info).definitions@ == old(info).definitions@,
{
    let empty = String::new();
    assert(empty@ =~= Seq::<char>::empty());
    let aliases = resolve_use_tree(tree, empty.as_str(), true);
    let originals = resolve_use_tree(tree, empty.as_str(), false);
    let ghost av = aliases@.map_values(|s: String| s@);
    let ghost ov = originals@.map_values(|s: String| s@);
    let n = if aliases.len() < originals.len() {
        aliases.len()
    } else {
        originals.len()
    };
    let ghost start = exports_view(*info);
    let production = EdgeContext::production();
    assert(production@ == (UsageKind::Production, Seq::<String>::empty()));
    let mut j: usize = 0;
    while j < n
        invariant
            j <= n,
            n <= aliases@.len(),
            n <= originals@.len(),
            av == aliases@.map_values(|s: String| s@),
            ov == originals@.map_values(|s: String| s@),
            production@ == (UsageKind::Production, Seq::<String>::empty()),
            exports_view(*info) == reexport_pairs(start, ctx@, av, ov, private, j as int),
            info.definitions@ == old(info).definitions@,
        decreases n - j,
    {
        assert(av[j as int] == aliases@[j as int]@);
        assert(ov[j as int] == originals@[j as int]@);
        let ghost before = exports_view(*info);
        match resolve_single_path(ctx, originals[j].as_str(), 0, &production, 0) {
            None => {},
            Some(dep) => {
                if is_glob(&dep) {
                    let ghost m = dep.target_module@;
                    if private {
                        info.private_glob_sources.push(dep.target_module);
                        assert(exports_view(*info).private_globs =~= before.private_globs.push(m));
                    } else {
                        info.glob_sources.push(dep.target_module);
                        assert(exports_view(*info).globs =~= before.globs.push(m));
                    }
                    assert(exports_view(*info) =~= reexport_pair(before, ctx@, av[j as int], ov[j as int], private));
                } else {
                    match dep.target_item {
                        Some(original_name) => {
                            let alias = last_path_segment(aliases[j].as_str());
                            let target = ReExportTarget { module: dep.target_module, original_name };
                            let ghost tv = target_view(target);
                            let ghost av_name = alias@;
                            if private {
                                info.private_uses.insert(alias, target);
                                proof {
                                    let f = |t: ReExportTarget| target_view(t);
                                    assert(info.private_uses@.map_values(f) =~= before.private_uses.insert(av_name, tv));
                                }
                            } else {
                                info.explicit_reexports.insert(alias, target);
                                proof {
                                    let f = |t: ReExportTarget| target_view(t);
                                    assert(info.explicit_reexports@.map_values(f) =~= before.explicit.insert(av_name, tv));
                                }
                            }
                            assert(exports_view(*info) =~= reexport_pair(before, ctx@, av[j as int], ov[j as int], private));
                        },
                        None => {},
                    }
                }
            },
        }
        j = j + 1;
    }
}

/// The owner of an `impl` block's type, as plain values.
pub ghost enum OwnerView {
    ThisModule,
    Other(Seq<char>),
}

/// The view of an owner.
pub open spec fn owner_view(o: ImplOwner) -> OwnerView {
    match o {
        ImplOwner::ThisModule => OwnerView::ThisModule,
        ImplOwner::Other(m) => OwnerView::Other(m@),
    }
}

/// Where the type of an `impl` block is defined, and the type's name there.
/// A bare name is this module's where it defines the name, and otherwise
/// what a private `use` or a named re-export of this module binds it to. A
/// qualified path resolves like any other, and counts where it lands on an
/// item of this crate.
pub open spec fn impl_owner_of(c: CtxView, segs: Seq<Seq<char>>, v: ExportsView) -> Option<(OwnerView, Seq<char>)> {
    if segs.len() == 0 {
        None
    } else if segs.len() == 1 {
        let name = segs[0];
        if v.definitions.dom().contains(name) {
            Some((OwnerView::ThisModule, name))
        } else if v.private_uses.dom().contains(name) {
            Some((OwnerView::Other(v.private_uses[name].0), v.private_uses[name].1))
        } else if v.explicit.dom().contains(name) {
            Some((OwnerView::Other(v.explicit[name].0), v.explicit[name].1))
        } else {
            None
        }
    } else {
        match single_path_dep(c, join_colons(segs), 0, (UsageKind::Production, Seq::empty()), 0) {
            None => None,
            Some(d) => if d.target_crate != normalized(c.current_crate) {
                None
            } else {
                match d.target_item {
                    None => None,
                    Some(item) => if d.target_module == c.current_module {
                        Some((OwnerView::ThisModule, item))
                    } else {
                        Some((OwnerView::Other(d.target_module), item))
                    },
                }
            },
        }
    }
}

/// Find the module that defines the type an `impl` block is for, and the
/// type's name there.
pub fn impl_owner(ctx: &ResolutionContext, segments: &Vec<String>, info: &ModuleExportInfo) -> (res: Option<
    (ImplOwner, String),
>)
    ensures
        match res {
            Some(r) => impl_owner_of(ctx@, str_views(segments@), exports_view(*info)) == Some(
                (owner_view(r.0), r.1@),
            ),
            None => impl_owner_of(ctx@, str_views(segments@), exports_view(*info)) is None,
        },
{
    let ghost sv = str_views(segments@);
    if segments.len() == 0 {
        return None;
    }
    if segments.len() == 1 {
        let name = &segments[0];
        assert(sv[0] == name@);
        if info.definitions.contains_key(name.as_str()) {
            return Some((ImplOwner::ThisModule, name.clone()));
        }
        match info.private_uses.get(name.as_str()) {
            Some(bound) => {
                return Some((ImplOwner::Other(bound.module.clone()), bound.original_name.clone()));
            },
            None => {},
        }
        match info.explicit_reexports.get(name.as_str()) {
            Some(bound) => {
                return Some((ImplOwner::Other(bound.module.clone()), bound.original_name.clone()));
            },
            None => {},
        }
        return None;
    }
    let mut parts: Vec<Vec<char>> = Vec::new();
    let mut i: usize = 0;
    while i < segments.len()
        invariant
            i <= segments@.len(),
            sv == str_views(segments@),
            parts@.map_values(|v: Vec<char>| v@) == sv.take(i as int),
        decreases segments.len() - i,
    {
        let ghost before = parts@;
        let piece = crate::text::chars_of(segments[i].as_str());
        parts.push(piece);
        proof {
            crate::analyze::resolution::lemma_views_push(before, piece);
            assert(sv.take(i + 1) =~= sv.take(i as int).push(sv[i as int]));
        }
        i = i + 1;
    }
    assert(sv.take(i as int) =~= sv);
    let path = crate::text::string_of(crate::text::join_on_colons(&parts).as_slice());
    let production = EdgeContext::production();
    assert(production@ == (UsageKind::Production, Seq::<String>::empty()));
    let dep = match resolve_single_path(ctx, path.as_str(), 0, &production, 0) {
        Some(d) => d,
        None => {
            return None;
        },
    };
    let current = normalize_crate_name(ctx.current_crate);
    if !str_eq(dep.target_crate.as_str(), current.as_str()) {
        return None;
    }
    let item = match dep.target_item {
        Some(item) => item,
        None => {
            return None;
        },
    };
    if str_eq(dep.target_module.as_str(), ctx.current_module_path) {
        Some((ImplOwner::ThisModule, item))
    } else {
        Some((ImplOwner::Other(dep.target_module), item))
    }
}

/// A set of names, from a list.
pub open spec fn names_set(v: Seq<String>) -> Set<Seq<char>> {
    str_views(v).to_set()
}

/// The exports after the first pass over one item: `use` items and public
/// definitions.
pub open spec fn first_pass_item(v: ExportsView, c: CtxView, item: FileItem) -> ExportsView {
    match item {
        FileItem::Use { tree, vis } => if reexports(vis) {
            use_reexports(v, c, tree, false)
        } else if vis is Inherited {
            use_reexports(v, c, tree, true)
        } else {
            v
        },
        FileItem::Definition { name, kind, vis, line, .. } => if reexports(vis) {
            ExportsView { definitions: v.definitions.insert(name@, Definition { kind, line }), ..v }
        } else {
            v
        },
        _ => v,
    }
}

/// The exports after the first pass over the first `k` items.
pub open spec fn first_pass(v: ExportsView, c: CtxView, items: Seq<FileItem>, k: int) -> ExportsView
    decreases k,
{
    if k <= 0 || k > items.len() {
        v
    } else {
        first_pass_item(first_pass(v, c, items, k - 1), c, items[k - 1])
    }
}

/// How a `use` item's visibility decides what it adds: `pub(crate)` and
/// `pub(super)` add exactly what the same item marked `pub` adds, and
/// that differs from what it adds as a private item only in where the
/// names land; `pub(in path)` and other restrictions add nothing.
pub proof fn lemma_use_visibility(v: ExportsView, c: CtxView, tree: UseTree, vis: Visibility)
    ensures
        first_pass_item(v, c, FileItem::Use { tree, vis: Visibility::Public }) == use_reexports(v, c, tree, false),
        first_pass_item(v, c, FileItem::Use { tree, vis: Visibility::Inherited }) == use_reexports(v, c, tree, true),
        vis matches Visibility::Restricted { in_token, path } ==> if !in_token && (path@ == seq!['c', 'r', 'a', 't', 'e']
            || path@ == seq!['s', 'u', 'p', 'e', 'r']) {
            first_pass_item(v, c, FileItem::Use { tree, vis }) == first_pass_item(
                v,
                c,
                FileItem::Use { tree, vis: Visibility::Public },
            )
        } else {
            first_pass_item(v, c, FileItem::Use { tree, vis }) == v
        },
{
}

/// A definition marked `pub`, `pub(crate)` or `pub(super)` is recorded
/// under its name with its kind and line; a private one, or one marked
/// `pub(in path)`, is not.
pub proof fn lemma_definition_visibility(
    v: ExportsView,
    c: CtxView,
    name: String,
    kind: DefKind,
    vis: Visibility,
    line: usize,
    variants: Vec<String>,
    fns: Vec<String>,
    consts: Vec<String>,
)
    ensures
        ({
            let item = FileItem::Definition { name, kind, vis, line, variants, fns, consts };
            let published = match vis {
                Visibility::Public => true,
                Visibility::Restricted { in_token, path } => !in_token && (path@ == seq!['c', 'r', 'a', 't', 'e']
                    || path@ == seq!['s', 'u', 'p', 'e', 'r']),
                Visibility::Inherited => false,
            };
            &&& published ==> first_pass_item(v, c, item).definitions == v.definitions.insert(
                name@,
                Definition { kind, line },
            )
            &&& !published ==> first_pass_item(v, c, item) == v
            &&& first_pass_item(v, c, item).explicit == v.explicit
        }),
{
}

/// A re-exporting `use` item (`pub(crate)`, `pub(super)`) in a module file
/// gives the module the same exports as if it were marked `pub`.
pub proof fn lemma_reexport_as_pub(
    c: CtxView,
    items: Seq<FileItem>,
    i: int,
    tree: UseTree,
    path: String,
)
    requires
        0 <= i < items.len(),
        items[i] == (FileItem::Use { tree, vis: Visibility::Restricted { in_token: false, path } }),
        path@ == seq!['c', 'r', 'a', 't', 'e'] || path@ == seq!['s', 'u', 'p', 'e', 'r'],
    ensures
        ({
            let pubs = items.update(i, FileItem::Use { tree, vis: Visibility::Public });
            let first = first_pass(no_exports(), c, items, items.len() as int);
            let first_pub = first_pass(no_exports(), c, pubs, pubs.len() as int);
            &&& first == first_pub
            &&& second_pass(first, c, items, items.len() as int) == second_pass(first_pub, c, pubs, pubs.len() as int)
        }),
{
    let pubs = items.update(i, FileItem::Use { tree, vis: Visibility::Public });
    lemma_use_visibility(no_exports(), c, tree, Visibility::Restricted { in_token: false, path });
    lemma_first_pass_same(no_exports(), c, items, pubs, i, items.len() as int);
    lemma_second_pass_same(first_pass(no_exports(), c, items, items.len() as int), c, items, pubs, i, items.len() as int);
}

/// Lists of items that differ only at a `use` item with the same effect
/// give the same first pass.
proof fn lemma_first_pass_same(v: ExportsView, c: CtxView, items: Seq<FileItem>, other: Seq<FileItem>, i: int, k: int)
    requires
        items.len() == other.len(),
        0 <= i < items.len(),
        forall|j: int| 0 <= j < items.len() && j != i ==> items[j] == other[j],
        forall|w: ExportsView| #[trigger] first_pass_item(w, c, items[i]) == first_pass_item(w, c, other[i]),
    ensures
        first_pass(v, c, items, k) == first_pass(v, c, other, k),
    decreases k,
{
    if 0 < k <= items.len() {
        lemma_first_pass_same(v, c, items, other, i, k - 1);
        assert(first_pass_item(first_pass(v, c, items, k - 1), c, items[k - 1]) == first_pass_item(
            first_pass(v, c, items, k - 1),
            c,
            other[k - 1],
        ));
    }
}

/// Lists of items that differ only at a `use` item give the same second
/// pass: the second pass reads no `use` item.
proof fn lemma_second_pass_same(v: ExportsView, c: CtxView, items: Seq<FileItem>, other: Seq<FileItem>, i: int, k: int)
    requires
        items.len() == other.len(),
        0 <= i < items.len(),
        forall|j: int| 0 <= j < items.len() && j != i ==> items[j] == other[j],
        items[i] is Use,
        other[i] is Use,
    ensures
        second_pass(v, c, items, k) == second_pass(v, c, other, k),
    decreases k,
{
    if 0 < k <= items.len() {
        lemma_second_pass_same(v, c, items, other, i, k - 1);
    }
}

/// An `impl` block for a type of another module, as plain values.
pub open spec fn out_view(o: OutOfModuleImpl) -> (Seq<char>, Seq<char>, (Set<Seq<char>>, Set<Seq<char>>, Set<Seq<char>>)) {
    (o.module@, o.type_ident@, items_view(o.items))
}

/// The exports and the impls of other modules' types after the second pass
/// over one item: the variants of an enum, the fns and consts of a trait
/// and of an `impl` block.
pub open spec fn second_pass_item(
    v: ExportsView,
    out: Seq<(Seq<char>, Seq<char>, (Set<Seq<char>>, Set<Seq<char>>, Set<Seq<char>>))>,
    c: CtxView,
    item: FileItem,
) -> (ExportsView, Seq<(Seq<char>, Seq<char>, (Set<Seq<char>>, Set<Seq<char>>, Set<Seq<char>>))>) {
    match item {
        FileItem::Definition { name, kind, variants, fns, consts, .. } => if kind == DefKind::Enum {
            (
                ExportsView {
                    associated: merged_into(v.associated, name@, (names_set(variants@), Set::empty(), Set::empty())),
                    ..v
                },
                out,
            )
        } else if kind == DefKind::Trait {
            (
                ExportsView {
                    associated: merged_into(v.associated, name@, (Set::empty(), names_set(fns@), names_set(consts@))),
                    ..v
                },
                out,
            )
        } else {
            (v, out)
        },
        FileItem::Impl { self_path, fns, consts } => match self_path {
            Some(segs) => match impl_owner_of(c, str_views(segs@), v) {
                Some((OwnerView::ThisModule, t)) => (
                    ExportsView {
                        associated: merged_into(v.associated, t, (Set::empty(), names_set(fns@), names_set(consts@))),
                        ..v
                    },
                    out,
                ),
                Some((OwnerView::Other(m), t)) => (v, out.push((m, t, (Set::empty(), names_set(fns@), names_set(consts@))))),
                None => (v, out),
            },
            None => (v, out),
        },
        _ => (v, out),
    }
}

/// The exports and the impls of other modules' types after the second pass
/// over the first `k` items.
pub open spec fn second_pass(
    v: ExportsView,
    c: CtxView,
    items: Seq<FileItem>,
    k: int,
) -> (ExportsView, Seq<(Seq<char>, Seq<char>, (Set<Seq<char>>, Set<Seq<char>>, Set<Seq<char>>))>)
    decreases k,
{
    if k <= 0 || k > items.len() {
        (v, Seq::empty())
    } else {
        let st = second_pass(v, c, items, k - 1);
        second_pass_item(st.0, st.1, c, items[k - 1])
    }
}

/// A set of names built from a list.
fn set_of(names: &Vec<String>) -> (res: StrSet)
    ensures
        res@ == names_set(names@),
{
    let mut res = StrSet::new();
    let mut i: usize = 0;
    while i < names.len()
        invariant
            i <= names@.len(),
            res@ == str_views(names@).take(i as int).to_set(),
        decreases names.len() - i,
    {
        res.insert(names[i].clone());
        proof {
            let sv = str_views(names@);
            sv.take(i as int).lemma_push_to_set_commute(sv[i as int]);
            assert(sv.take(i + 1) =~= sv.take(i as int).push(sv[i as int]));
        }
        i = i + 1;
    }
    assert(str_views(names@).take(i as int) =~= str_views(names@));
    res
}

/// Extract the re-exports, definitions and associated items of one module
/// file. An `impl` block whose type lives in another module goes to
/// `out_of_module_impls` for that module. `ctx` is the context of this
/// phase: the file, its module, and an empty re-export map.
pub fn collect_module_info(
    ctx: &ResolutionContext,
    items: &Vec<FileItem>,
    out_of_module_impls: &mut Vec<OutOfModuleImpl>,
) -> (res: ModuleExportInfo)
    ensures
        ({
            let first = first_pass(no_exports(), ctx@, items@, items@.len() as int);
            let second = second_pass(first, ctx@, items@, items@.len() as int);
            &&& exports_view(res) == second.0
            &&& final(out_of_module_impls)@.map_values(|o: OutOfModuleImpl| out_view(o)) == old(
                out_of_module_impls,
            )@.map_values(|o: OutOfModuleImpl| out_view(o)) + second.1
        }),
{
    let mut info = ModuleExportInfo::new();
    proof {
        let f = |a: AssociatedItems| items_view(a);
        let g = |t: ReExportTarget| target_view(t);
        assert(info.associated@.map_values(f) =~= Map::<Seq<char>, (Set<Seq<char>>, Set<Seq<char>>, Set<Seq<char>>)>::empty());
        assert(info.explicit_reexports@.map_values(g) =~= Map::<Seq<char>, (Seq<char>, Seq<char>)>::empty());
        assert(info.private_uses@.map_values(g) =~= Map::<Seq<char>, (Seq<char>, Seq<char>)>::empty());
        assert(str_views(info.glob_sources@) =~= Seq::<Seq<char>>::empty());
        assert(str_views(info.private_glob_sources@) =~= Seq::<Seq<char>>::empty());
        assert(exports_view(info) =~= no_exports());
    }
    let mut i: usize = 0;
    while i < items.len()
        invariant
            i <= items@.len(),
            exports_view(info) == first_pass(no_exports(), ctx@, items@, i as int),
        decreases items.len() - i,
    {
        match &items[i] {
            FileItem::Use { tree, vis } => {
                if crate::analyze::use_tree::is_reexport_visibility(vis) {
                    collect_use_reexports(ctx, tree, &mut info, false);
                } else {
                    match vis {
                        Visibility::Inherited => {
                            collect_use_reexports(ctx, tree, &mut info, true);
                        },
                        _ => {},
                    }
                }
            },
            FileItem::Definition { name, kind, vis, line, .. } => {
                if crate::analyze::use_tree::is_reexport_visibility(vis) {
                    let ghost before = exports_view(info);
                    info.definitions.insert(name.clone(), Definition { kind: *kind, line: *line });
                    assert(exports_view(info) =~= ExportsView {
                        definitions: before.definitions.insert(name@, Definition { kind: *kind, line: *line }),
                        ..before
                    });
                }
            },
            _ => {},
        }
        i = i + 1;
    }
    let ghost first = exports_view(info);
    let ghost start_out = old(out_of_module_impls)@.map_values(|o: OutOfModuleImpl| out_view(o));
    let mut k: usize = 0;
    while k < items.len()
        invariant
            k <= items@.len(),
            first == first_pass(no_exports(), ctx@, items@, items@.len() as int),
            start_out == old(out_of_module_impls)@.map_values(|o: OutOfModuleImpl| out_view(o)),
            exports_view(info) == second_pass(first, ctx@, items@, k as int).0,
            out_of_module_impls@.map_values(|o: OutOfModuleImpl| out_view(o)) == start_out + second_pass(
                first,
                ctx@,
                items@,
                k as int,
            ).1,
            info.definitions@ == first.definitions,
            exports_view(info).private_uses == first.private_uses,
            exports_view(info).explicit == first.explicit,
        decreases items.len() - k,
    {
        let ghost before = exports_view(info);
        let ghost before_out = out_of_module_impls@;
        match &items[k] {
            FileItem::Definition { name, kind, variants, fns, consts, .. } => {
                if *kind == DefKind::Enum {
                    let add = AssociatedItems { variants: set_of(variants), fns: StrSet::new(), consts: StrSet::new() };
                    merge_associated(&mut info.associated, name.clone(), add);
                } else if *kind == DefKind::Trait {
                    let add = AssociatedItems { variants: StrSet::new(), fns: set_of(fns), consts: set_of(consts) };
                    merge_associated(&mut info.associated, name.clone(), add);
                }
            },
            FileItem::Impl { self_path, fns, consts } => {
                match self_path {
                    Some(segs) => {
                        match impl_owner(ctx, segs, &info) {
                            Some((ImplOwner::ThisModule, t)) => {
                                let add = AssociatedItems { variants: StrSet::new(), fns: set_of(fns), consts: set_of(consts) };
                                merge_associated(&mut info.associated, t, add);
                            },
                            Some((ImplOwner::Other(m), t)) => {
                                let add = AssociatedItems { variants: StrSet::new(), fns: set_of(fns), consts: set_of(consts) };
                                let o = OutOfModuleImpl { module: m, type_ident: t, items: add };
                                let ghost ov = out_view(o);
                                out_of_module_impls.push(o);
                                assert(out_of_module_impls@.map_values(|o: OutOfModuleImpl| out_view(o)) =~= before_out.map_values(
                                    |o: OutOfModuleImpl| out_view(o),
                                ).push(ov));
                            },
                            None => {},
                        }
                    },
                    None => {},
                }
            },
            _ => {},
        }
        proof {
            assert(exports_view(info) =~= second_pass(first, ctx@, items@, k + 1).0);
        }
        k = k + 1;
    }
    info
}

/// The modules' exports with one `impl` block of another module's type
/// merged into that module's associated items; a module the map lacks
/// starts with no exports.
pub open spec fn with_impl(
    m: Map<Seq<char>, ExportsView>,
    o: (Seq<char>, Seq<char>, (Set<Seq<char>>, Set<Seq<char>>, Set<Seq<char>>)),
) -> Map<Seq<char>, ExportsView> {
    let base = if m.dom().contains(o.0) {
        m[o.0]
    } else {
        no_exports()
    };
    m.insert(o.0, ExportsView { associated: merged_into(base.associated, o.1, o.2), ..base })
}

/// The modules' exports with the given `impl` blocks merged in, in order.
pub open spec fn with_impls(
    m: Map<Seq<char>, ExportsView>,
    impls: Seq<(Seq<char>, Seq<char>, (Set<Seq<char>>, Set<Seq<char>>, Set<Seq<char>>))>,
) -> Map<Seq<char>, ExportsView>
    decreases impls.len(),
{
    if impls.len() == 0 {
        m
    } else {
        with_impl(with_impls(m, impls.drop_last()), impls.last())
    }
}

/// The exports of every module, as plain values.
pub open spec fn modules_view(m: Map<Seq<char>, ModuleExportInfo>) -> Map<Seq<char>, ExportsView> {
    m.map_values(|i: ModuleExportInfo| exports_view(i))
}

/// Merge the `impl` blocks written outside the module of their type into
/// that module's associated items, so two `impl` blocks of one type add up.
pub fn merge_out_of_module_impls(result: &mut StrMap<ModuleExportInfo>, impls: Vec<OutOfModuleImpl>)
    ensures
        modules_view(final(result)@) == with_impls(
            modules_view(old(result)@),
            impls@.map_values(|o: OutOfModuleImpl| out_view(o)),
        ),
{
    let ghost all = impls@.map_values(|o: OutOfModuleImpl| out_view(o));
    let mut rest = impls;
    let mut k: usize = 0;
    let total = rest.len();
    while rest.len() > 0
        invariant
            k + rest@.len() == all.len(),
            all.len() <= usize::MAX,
            rest@.map_values(|o: OutOfModuleImpl| out_view(o)) == all.skip(k as int),
            modules_view(result@) == with_impls(modules_view(old(result)@), all.take(k as int)),
        decreases rest.len(),
    {
        let ghost before_rest = rest@;
        let o = rest.remove(0);
        proof {
            assert(out_view(o) == before_rest.map_values(|o: OutOfModuleImpl| out_view(o))[0]);
            assert(rest@.map_values(|o: OutOfModuleImpl| out_view(o)) =~= before_rest.map_values(
                |o: OutOfModuleImpl| out_view(o),
            ).drop_first());
            assert(all.skip(k as int).drop_first() =~= all.skip(k + 1));
            assert(out_view(o) == all[k as int]);
        }
        let ghost before = modules_view(result@);
        let ghost ov = out_view(o);
        let OutOfModuleImpl { module, type_ident, items } = o;
        match result.replace(module.as_str(), ModuleExportInfo::new()) {
            Some(existing) => {
                let mut info = existing;
                let ghost base = exports_view(info);
                merge_associated(&mut info.associated, type_ident, items);
                let ghost merged = exports_view(info);
                assert(merged =~= ExportsView { associated: merged_into(base.associated, ov.1, ov.2), ..base });
                result.replace(module.as_str(), info);
                assert(modules_view(result@) =~= with_impl(before, ov));
            },
            None => {
                let mut info = ModuleExportInfo::new();
                proof {
                    let f = |a: AssociatedItems| items_view(a);
                    let g = |t: ReExportTarget| target_view(t);
                    assert(info.associated@.map_values(f) =~= Map::<Seq<char>, (Set<Seq<char>>, Set<Seq<char>>, Set<Seq<char>>)>::empty());
                    assert(info.explicit_reexports@.map_values(g) =~= Map::<Seq<char>, (Seq<char>, Seq<char>)>::empty());
                    assert(info.private_uses@.map_values(g) =~= Map::<Seq<char>, (Seq<char>, Seq<char>)>::empty());
                    assert(str_views(info.glob_sources@) =~= Seq::<Seq<char>>::empty());
                    assert(str_views(info.private_glob_sources@) =~= Seq::<Seq<char>>::empty());
                    assert(exports_view(info) =~= no_exports());
                }
                merge_associated(&mut info.associated, type_ident, items);
                let ghost merged = exports_view(info);
                assert(merged =~= ExportsView { associated: merged_into(no_exports().associated, ov.1, ov.2), ..no_exports() });
                result.insert(module, info);
                assert(modules_view(result@) =~= with_impl(before, ov));
            },
        }
        proof {
            assert(all.take(k + 1).drop_last() =~= all.take(k as int));
        }
        k = k + 1;
    }
    assert(all.take(k as int) =~= all);
}

/// One module file of a crate: its module path (empty for a crate root),
/// its workspace-relative file, and its items.
#[derive(Debug)]
pub struct ModuleFile {
    pub module: String,
    pub source_file: String,
    pub items: Vec<FileItem>,
}

/// The context a module file is read in: that of the crate, at the file.
pub open spec fn module_ctx(c: CtxView, m: ModuleFile) -> CtxView {
    CtxView { source_file: m.source_file@, current_module: m.module@, ..c }
}

/// What reading one module file gives: its exports, and the `impl` blocks it
/// writes for types of other modules.
pub open spec fn module_result(c: CtxView, m: ModuleFile) -> (
    ExportsView,
    Seq<(Seq<char>, Seq<char>, (Set<Seq<char>>, Set<Seq<char>>, Set<Seq<char>>))>,
) {
    let mc = module_ctx(c, m);
    second_pass(first_pass(no_exports(), mc, m.items@, m.items@.len() as int), mc, m.items@, m.items@.len() as int)
}

/// Reading the first `k` module files: each module that exports anything
/// under its path, and the out-of-module `impl` blocks in order.
pub open spec fn crate_walk(c: CtxView, mods: Seq<ModuleFile>, k: int) -> (
    Map<Seq<char>, ExportsView>,
    Seq<(Seq<char>, Seq<char>, (Set<Seq<char>>, Set<Seq<char>>, Set<Seq<char>>))>,
)
    decreases k,
{
    if k <= 0 || k > mods.len() {
        (Map::empty(), Seq::empty())
    } else {
        let prev = crate_walk(c, mods, k - 1);
        let r = module_result(c, mods[k - 1]);
        (
            if r.0 == no_exports() {
                prev.0
            } else {
                prev.0.insert(mods[k - 1].module@, r.0)
            },
            prev.1 + r.1,
        )
    }
}

/// What a crate's re-export map holds: every module file read, those that
/// export anything kept under their path, and the `impl` blocks written
/// outside the module of their type merged into that module.
pub open spec fn crate_reexports_of(c: CtxView, mods: Seq<ModuleFile>) -> Map<Seq<char>, ExportsView> {
    let w = crate_walk(c, mods, mods.len() as int);
    with_impls(w.0, w.1)
}

/// Collect the re-exports, definitions and associated items of every module
/// file of one crate, the files given in the order the module tree is
/// walked. Each file is read in a context without re-exports or outside
/// crates, as the map being built is not known yet; a module that records
/// nothing is left out, and the `impl` blocks written outside the module of
/// their type are merged into that module at the end.
pub fn collect_crate_reexports(
    crate_name: &str,
    modules: &Vec<ModuleFile>,
    all_module_paths: &StrMap<StrSet>,
    workspace_crates: &StrSet,
    crate_exports: &StrMap<StrSet>,
) -> (res: StrMap<ModuleExportInfo>)
    ensures
        exists|c: CtxView|
            {
                &&& c.current_crate == normalized(crate_name@)
                &&& c.workspace == workspace_crates@
                &&& c.module_paths == all_module_paths@
                &&& c.crate_exports == crate_exports@
                &&& c.reexport_map.crates@ == Map::<Seq<char>, StrMap<ModuleExportInfo>>::empty()
                &&& c.external == Set::<Seq<char>>::empty()
                &&& modules_view(res@) == #[trigger] crate_reexports_of(c, modules@)
            },
{
    let name = normalize_crate_name(crate_name);
    let empty_map = ReExportMap::new();
    let no_names: StrMap<String> = StrMap::new();
    let mut result: StrMap<ModuleExportInfo> = StrMap::new();
    let mut impls: Vec<OutOfModuleImpl> = Vec::new();
    let ghost c = CtxView {
        current_crate: name@,
        workspace: workspace_crates@,
        source_file: Seq::empty(),
        module_paths: all_module_paths@,
        crate_exports: crate_exports@,
        current_module: Seq::empty(),
        reexport_map: empty_map,
        external: no_names@.dom(),
    };
    assert(modules_view(result@) =~= crate_walk(c, modules@, 0).0);
    assert(impls@.map_values(|o: OutOfModuleImpl| out_view(o)) =~= crate_walk(c, modules@, 0).1);
    let mut k: usize = 0;
    while k < modules.len()
        invariant
            k <= modules@.len(),
            c.current_crate == name@,
            c.workspace == workspace_crates@,
            c.module_paths == all_module_paths@,
            c.crate_exports == crate_exports@,
            c.reexport_map == empty_map,
            c.external == no_names@.dom(),
            modules_view(result@) == crate_walk(c, modules@, k as int).0,
            impls@.map_values(|o: OutOfModuleImpl| out_view(o)) == crate_walk(c, modules@, k as int).1,
        decreases modules.len() - k,
    {
        let m = &modules[k];
        let ctx = ResolutionContext {
            current_crate: name.as_str(),
            workspace_crates,
            source_file: m.source_file.as_str(),
            all_module_paths,
            crate_exports,
            current_module_path: m.module.as_str(),
            reexport_map: &empty_map,
            external_crate_names: &no_names,
        };
        assert(ctx@ == module_ctx(c, *m));
        let ghost before = modules_view(result@);
        let info = collect_module_info(&ctx, &m.items, &mut impls);
        proof {
            assert(impls@.map_values(|o: OutOfModuleImpl| out_view(o)) =~= crate_walk(c, modules@, k + 1).1);
            assert(exports_view(info) == module_result(c, *m).0);
        }
        if !info.is_empty() {
            proof {
                assert(exports_view(info) != no_exports()) by {
                    if exports_view(info) == no_exports() {
                        assert(info.definitions@.dom() =~= Set::<Seq<char>>::empty());
                        assert(info.associated@.dom() =~= exports_view(info).associated.dom());
                        assert(info.explicit_reexports@.dom() =~= exports_view(info).explicit.dom());
                        assert(info.private_uses@.dom() =~= exports_view(info).private_uses.dom());
                        assert(info.glob_sources@.len() == exports_view(info).globs.len());
                        assert(info.private_glob_sources@.len() == exports_view(info).private_globs.len());
                    }
                }
            }
            let ghost ev = exports_view(info);
            result.insert(m.module.clone(), info);
            proof {
                assert(modules_view(result@) =~= before.insert(m.module@, ev));
            }
        } else {
            proof {
                let ev = exports_view(info);
                assert(ev.definitions =~= Map::<Seq<char>, Definition>::empty());
                assert(ev.associated =~= Map::<Seq<char>, (Set<Seq<char>>, Set<Seq<char>>, Set<Seq<char>>)>::empty());
                assert(ev.explicit =~= Map::<Seq<char>, (Seq<char>, Seq<char>)>::empty());
                assert(ev.private_uses =~= Map::<Seq<char>, (Seq<char>, Seq<char>)>::empty());
                assert(ev.globs =~= Seq::<Seq<char>>::empty());
                assert(ev.private_globs =~= Seq::<Seq<char>>::empty());
                assert(ev == no_exports());
            }
        }
        k = k + 1;
    }
    merge_out_of_module_impls(&mut result, impls);
    proof {
        assert(no_names@.dom() =~= Set::<Seq<char>>::empty());
        assert(modules_view(result@) == crate_reexports_of(c, modules@));
    }
    result
}

} // verus!
