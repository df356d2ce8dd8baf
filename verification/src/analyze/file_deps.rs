//! The dependencies one file writes: those of its `use` items, and those of
//! the paths it names, each carrying the uses that name it.

use vstd::prelude::*;

use crate::analyze::bindings::{
    bind_uses, no_bindings, CollectedUses, binding_at, binding_view, globs_at, last_path_segment, last_segment, opt_str, state_of, view_of,
    BindingView, BindingsView, FileBindings, PathBinding,
};
use crate::analyze::categories::{
    categorize, category_of, def_kind_of, definition_kind, expand_glob, expanded, glob_payload_known, is_glob, is_matched_by_a_bare_pattern,
    matched_by_bare_pattern, star, with_item, PathPosition,
};
use crate::analyze::exports::{
    module_info_of, module_scope_holds_symbol, reaches, resolve_reexport, resolved_module, ReExportMap,
};
use crate::analyze::resolution::{resolve_single_path, single_path_dep, CtxView, ResolutionContext};
use crate::analyze::use_tree::{is_reexport_visibility, reexports, resolve_use_tree, tree_paths, CollectedUse};
use crate::model::{
    DefKind, UseCategory, dedup_pushed, dedup_pushed_all, dep_views, full_target_of, DepView, DependencyRef, EdgeContext, SymbolUse,
    UsageKind,
};

verus! {

/// Merging `x` and then `y` is merging `x + y`.
pub proof fn lemma_dedup_all_concat(a: Seq<DepView>, x: Seq<DepView>, y: Seq<DepView>)
    ensures
        dedup_pushed_all(a, x + y) == dedup_pushed_all(dedup_pushed_all(a, x), y),
    decreases y.len(),
{
    if y.len() == 0 {
        assert(x + y =~= x);
    } else {
        assert((x + y).drop_last() =~= x + y.drop_last());
        assert((x + y).last() == y.last());
        lemma_dedup_all_concat(a, x, y.drop_last());
    }
}

/// A dependency pointed at the module its re-export chain ends at.
pub open spec fn reexport_resolved(map: ReExportMap, importer: Seq<char>, d: DepView) -> DepView {
    DepView { target_module: resolved_module(map, d, importer), ..d }
}

/// The dependencies one path of a `use` gives, in order, before they are
/// merged: the path resolved, a private glob the map knows dropped (its
/// names come from the paths the file uses), a glob split into its names,
/// each pointed through re-exports.
pub open spec fn path_deps(
    c: CtxView,
    path: Seq<char>,
    line: usize,
    context: (UsageKind, Seq<String>),
    depth: int,
    republish: bool,
) -> Seq<DepView> {
    match single_path_dep(c, path, line, context, depth) {
        None => Seq::empty(),
        Some(d) => if d.target_item == Some(star()) && module_info_of(
            c.reexport_map,
            d.target_crate,
            d.target_module,
        ) is Some && !republish {
            Seq::empty()
        } else {
            expanded(c.reexport_map, DepView { via_reexport: republish, ..d }).map_values(
                |e: DepView| reexport_resolved(c.reexport_map, c.current_module, e),
            )
        },
    }
}

/// Merge into `deps` the dependencies one path of a `use` gives.
fn push_path_deps(
    deps: &mut Vec<DependencyRef>,
    ctx: &ResolutionContext,
    path: &str,
    line: usize,
    context: &EdgeContext,
    depth: usize,
    republish: bool,
)
    ensures
        dep_views(final(deps)@) == dedup_pushed_all(
            dep_views(old(deps)@),
            path_deps(ctx@, path@, line, context@, depth as int, republish),
        ),
{
    let mut dep = match resolve_single_path(ctx, path, line, context, depth) {
        Some(dep) => dep,
        None => {
            return;
        },
    };
    if is_glob(&dep) && glob_payload_known(&dep, ctx.reexport_map) && !republish {
        return;
    }
    dep.via_reexport = republish;
    let expanded_deps = expand_glob(dep, ctx.reexport_map);
    let ghost ev = dep_views(expanded_deps@);
    let ghost resolved = ev.map_values(
        |e: DepView| reexport_resolved(ctx@.reexport_map, ctx@.current_module, e),
    );
    let ghost start = dep_views(deps@);
    let count = expanded_deps.len();
    assert(ev.len() == count);
    let mut rest = expanded_deps;
    let mut k: usize = 0;
    while rest.len() > 0
        invariant
            k + rest@.len() == ev.len(),
            ev.len() <= usize::MAX,
            resolved == ev.map_values(
                |e: DepView| reexport_resolved(ctx@.reexport_map, ctx@.current_module, e),
            ),
            dep_views(rest@) == ev.skip(k as int),
            dep_views(deps@) == dedup_pushed_all(start, resolved.take(k as int)),
        decreases rest.len(),
    {
        let ghost before_rest = rest@;
        let mut d = rest.remove(0);
        proof {
            assert(d@ == dep_views(before_rest)[0]);
            assert(dep_views(rest@) =~= dep_views(before_rest).drop_first());
            assert(ev.skip(k as int).drop_first() =~= ev.skip(k + 1));
            assert(d@ == ev[k as int]);
        }
        resolve_reexport(&mut d, ctx.reexport_map, ctx.current_module_path);
        crate::model::DependencyRef::dedup_push(deps, d);
        proof {
            assert(resolved.take(k + 1).drop_last() =~= resolved.take(k as int));
            assert(resolved.take(k + 1).last() == resolved[k as int]);
        }
        k = k + 1;
    }
    assert(resolved.take(k as int) =~= resolved);
}

/// The dependencies of the paths of one `use`, in order, before merging.
pub open spec fn use_paths_deps(c: CtxView, u: CollectedUse, paths: Seq<Seq<char>>) -> Seq<DepView>
    decreases paths.len(),
{
    if paths.len() == 0 {
        Seq::empty()
    } else {
        use_paths_deps(c, u, paths.drop_last()) + path_deps(
            c,
            paths.last(),
            u.line,
            u.context@,
            u.inline_depth as int,
            reexports(u.vis),
        )
    }
}

/// The dependencies of the `use` items, in order, before merging.
pub open spec fn uses_deps(c: CtxView, uses: Seq<CollectedUse>) -> Seq<DepView>
    decreases uses.len(),
{
    if uses.len() == 0 {
        Seq::empty()
    } else {
        uses_deps(c, uses.drop_last()) + use_paths_deps(
            c,
            uses.last(),
            tree_paths(uses.last().tree, Seq::empty(), false),
        )
    }
}

/// Parse the `use` items of a file into the dependencies they write, on
/// the current crate, workspace crates and known outside crates, each
/// pointed through re-exports. A dependency whose full target and kind are
/// already there merges into it.
pub fn parse_workspace_dependencies(use_items: &Vec<CollectedUse>, ctx: &ResolutionContext) -> (res:
    Vec<DependencyRef>)
    ensures
        dep_views(res@) == dedup_pushed_all(Seq::empty(), uses_deps(ctx@, use_items@)),
{
    let mut deps: Vec<DependencyRef> = Vec::new();
    let mut i: usize = 0;
    assert(dep_views(deps@) =~= Seq::<DepView>::empty());
    while i < use_items.len()
        invariant
            i <= use_items.len(),
            dep_views(deps@) == dedup_pushed_all(Seq::empty(), uses_deps(ctx@, use_items@.take(i as int))),
        decreases use_items.len() - i,
    {
        let collected = &use_items[i];
        let empty = String::new();
        assert(empty@ =~= Seq::<char>::empty());
        let paths = resolve_use_tree(&collected.tree, empty.as_str(), false);
        let ghost pv = paths@.map_values(|s: String| s@);
        let republish = is_reexport_visibility(&collected.vis);
        let ghost before = dep_views(deps@);
        let mut j: usize = 0;
        while j < paths.len()
            invariant
                j <= paths.len(),
                pv == paths@.map_values(|s: String| s@),
                pv == tree_paths(collected.tree, Seq::empty(), false),
                republish == reexports(collected.vis),
                dep_views(deps@) == dedup_pushed_all(before, use_paths_deps(ctx@, *collected, pv.take(j as int))),
            decreases paths.len() - j,
        {
            let ghost mid = dep_views(deps@);
            push_path_deps(
                &mut deps,
                ctx,
                paths[j].as_str(),
                collected.line,
                &collected.context,
                collected.inline_depth,
                republish,
            );
            proof {
                assert(pv[j as int] == paths@[j as int]@);
                assert(pv.take(j + 1).drop_last() =~= pv.take(j as int));
                lemma_dedup_all_concat(
                    before,
                    use_paths_deps(ctx@, *collected, pv.take(j as int)),
                    path_deps(
                        ctx@,
                        pv[j as int],
                        collected.line,
                        collected.context@,
                        collected.inline_depth as int,
                        republish,
                    ),
                );
            }
            j = j + 1;
        }
        proof {
            assert(pv.take(j as int) =~= pv);
            assert(use_items@.take(i + 1).drop_last() =~= use_items@.take(i as int));
            lemma_dedup_all_concat(
                Seq::empty(),
                uses_deps(ctx@, use_items@.take(i as int)),
                use_paths_deps(ctx@, *collected, pv),
            );
        }
        i = i + 1;
    }
    assert(use_items@.take(i as int) =~= use_items@);
    deps
}

/// One path reference with what its position says about it.
#[derive(Debug)]
pub struct PathRef {
    pub path: String,
    pub line: usize,
    pub context: EdgeContext,
    pub inline_depth: usize,
    pub region: usize,
    pub position: PathPosition,
    /// Written in macro input or an attribute, where the segments are read
    /// off the tokens. Only a binding resolves such a path.
    pub in_macro: bool,
}

/// What a path reference resolves to on its own: nothing where it stands
/// in macro input.
pub open spec fn resolve_ref(c: CtxView, r: PathRef, p: Seq<char>) -> Option<DepView> {
    if r.in_macro {
        None
    } else {
        single_path_dep(c, p, r.line, r.context@, r.inline_depth as int)
    }
}

/// The segment a path writes after the item it resolved to:
/// `crate::a::S::new` on a dependency on `S` leaves `new`.
pub open spec fn associated_after(path: Seq<char>, d: DepView) -> Option<Seq<char>> {
    if Some(last_segment(path)) != d.target_item {
        Some(last_segment(path))
    } else {
        None
    }
}

/// Take the segment a path writes after the item it resolved to. A path
/// ending in the item leaves nothing.
pub fn associated_segment(path: &str, dep: &DependencyRef) -> (res: Option<String>)
    ensures
        opt_str(res) == associated_after(path@, dep@),
{
    let last = last_path_segment(path);
    match &dep.target_item {
        Some(item) => if crate::collections::str_eq(last.as_str(), item.as_str()) {
            None
        } else {
            Some(last)
        },
        None => Some(last),
    }
}

/// Whether the module a glob imports from brings `name` into the file's
/// scope: by its own definition, a named re-export, a glob re-export chain,
/// or a private glob the file's module sees as a descendant.
pub open spec fn glob_brings(c: CtxView, glob: DepView, name: Seq<char>) -> bool {
    &&& c.reexport_map.crates@.dom().contains(glob.target_crate)
    &&& reaches(
        c.reexport_map.crates@[glob.target_crate]@,
        true,
        c.current_module,
        glob.target_module,
        name,
    )
}

/// Whether the module a glob imports from brings `name` into scope.
pub fn glob_exports(ctx: &ResolutionContext, glob: &DependencyRef, name: &str) -> (res: bool)
    ensures
        res == glob_brings(ctx@, glob@, name@),
{
    match ctx.reexport_map.get(glob.target_crate.as_str()) {
        Some(crate_exports) => module_scope_holds_symbol(
            crate_exports,
            glob.target_module.as_str(),
            name,
            ctx.current_module_path,
        ),
        None => false,
    }
}

/// The first glob at or after `k` that brings `name` in, or -1.
pub open spec fn first_bringing(c: CtxView, globs: Seq<DepView>, name: Seq<char>, k: int) -> int
    decreases globs.len() - k,
{
    if k < 0 || k >= globs.len() {
        -1
    } else if glob_brings(c, globs[k], name) {
        k
    } else {
        first_bringing(c, globs, name, k + 1)
    }
}

/// The key a glob is remembered by once a name was taken from it.
pub open spec fn glob_key(g: DepView) -> (Seq<char>, UsageKind) {
    (full_target_of(g), g.context.0)
}

/// What one path reference stands for before re-export resolution: the
/// dependency, the associated item it names, and the glob a name was taken
/// from; `None` where it stands for nothing of the workspace.
pub open spec fn ref_target(c: CtxView, b: BindingsView, r: PathRef) -> Option<
    (DepView, Option<Seq<char>>, Option<(Seq<char>, UsageKind)>),
> {
    match binding_at(b, r.path@, r.region) {
        BindingView::Unbound(name, associated) => if associated is Some && resolve_ref(
            c,
            r,
            r.path@,
        ) is Some {
            let d = resolve_ref(c, r, r.path@)->0;
            Some((d, associated_after(r.path@, d), None))
        } else {
            let globs = globs_at(b, name, r.region);
            let i = first_bringing(c, globs, name, 0);
            if i < 0 {
                None
            } else {
                Some((with_item(globs[i], name), associated, Some(glob_key(globs[i]))))
            }
        },
        BindingView::Item(bound, associated) => if associated is Some && resolve_ref(
            c,
            r,
            r.path@,
        ) is Some {
            let d = resolve_ref(c, r, r.path@)->0;
            Some((d, associated_after(r.path@, d), None))
        } else {
            Some((bound, associated, None))
        },
        BindingView::Path(effective) => match resolve_ref(c, r, effective) {
            Some(d) => Some((d, associated_after(r.path@, d), None)),
            None => None,
        },
        BindingView::Elsewhere => None,
    }
}

/// A path reference run through the resolution chain where it may be.
fn resolve_path_ref(ctx: &ResolutionContext, r: &PathRef, p: &str) -> (res: Option<DependencyRef>)
    ensures
        match res {
            Some(d) => resolve_ref(ctx@, *r, p@) == Some(d@),
            None => resolve_ref(ctx@, *r, p@) is None,
        },
{
    if r.in_macro {
        None
    } else {
        resolve_single_path(ctx, p, r.line, &r.context, r.inline_depth)
    }
}

/// What one path reference stands for, as [`ref_target`] states it.
#[verifier::loop_isolation(false)]
fn ref_target_exec(ctx: &ResolutionContext, bindings: &FileBindings, r: &PathRef) -> (res: Option<
    (DependencyRef, Option<String>, Option<(String, UsageKind)>),
>)
    ensures
        match res {
            Some(t) => ref_target(ctx@, view_of(*bindings), *r) == Some(
                (
                    t.0@,
                    opt_str(t.1),
                    match t.2 {
                        Some(g) => Some((g.0@, g.1)),
                        None => None,
                    },
                ),
            ),
            None => ref_target(ctx@, view_of(*bindings), *r) is None,
        },
{
    let binding = bindings.binding_of(r.path.as_str(), r.region);
    match binding {
        PathBinding::Unbound(name, associated) => {
            if associated.is_some() {
                match resolve_path_ref(ctx, r, r.path.as_str()) {
                    Some(dep) => {
                        let a = associated_segment(r.path.as_str(), &dep);
                        return Some((dep, a, None));
                    },
                    None => {},
                }
            }
            let globs = bindings.globs_for(name.as_str(), r.region);
            let ghost gv = dep_views(globs@);
            let mut k: usize = 0;
            while k < globs.len()
                invariant
                    k <= globs@.len(),
                    gv == dep_views(globs@),
                    first_bringing(ctx@, gv, name@, 0) == first_bringing(ctx@, gv, name@, k as int),
                decreases globs.len() - k,
            {
                assert(gv[k as int] == globs@[k as int]@);
                if glob_exports(ctx, &globs[k], name.as_str()) {
                    let mut dep = globs[k].duplicate();
                    dep.target_item = Some(name.clone());
                    let key = (globs[k].full_target(), globs[k].context.kind);
                    return Some((dep, associated, Some(key)));
                }
                k = k + 1;
            }
            None
        },
        PathBinding::Item(bound, associated) => {
            if associated.is_some() {
                match resolve_path_ref(ctx, r, r.path.as_str()) {
                    Some(dep) => {
                        let a = associated_segment(r.path.as_str(), &dep);
                        return Some((dep, a, None));
                    },
                    None => {},
                }
            }
            Some((bound, associated, None))
        },
        PathBinding::Path(effective) => match resolve_path_ref(ctx, r, effective.as_str()) {
            Some(dep) => {
                let a = associated_segment(r.path.as_str(), &dep);
                Some((dep, a, None))
            },
            None => None,
        },
        PathBinding::Elsewhere => None,
    }
}

/// The dependencies and used globs after one path reference: its target
/// pointed through re-exports, carrying the use it is; a bare pattern that
/// only declares a variable adds nothing.
pub open spec fn step_ref(
    c: CtxView,
    b: BindingsView,
    deps: Seq<DepView>,
    used: Set<(Seq<char>, UsageKind)>,
    r: PathRef,
) -> (Seq<DepView>, Set<(Seq<char>, UsageKind)>) {
    match ref_target(c, b, r) {
        None => (deps, used),
        Some(t) => {
            let d = reexport_resolved(c.reexport_map, c.current_module, t.0);
            match d.target_item {
                None => (dedup_pushed(deps, d), used),
                Some(item) => if r.position == PathPosition::Binding && !matched_by_bare_pattern(
                    c.reexport_map,
                    d,
                ) {
                    (deps, used)
                } else {
                    let used2 = match t.2 {
                        Some(g) => used.insert(g),
                        None => used,
                    };
                    let u = SymbolUse {
                        line: r.line,
                        category: category_of(c.reexport_map, d, item, r.position, t.1),
                        imported_for_methods: false,
                    };
                    (dedup_pushed(deps, DepView { uses: d.uses.push(u), ..d }), used2)
                },
            }
        },
    }
}

/// The dependencies and used globs after the given path references.
pub open spec fn refs_state(c: CtxView, b: BindingsView, refs: Seq<PathRef>) -> (Seq<DepView>, Set<
    (Seq<char>, UsageKind),
>)
    decreases refs.len(),
{
    if refs.len() == 0 {
        (Seq::empty(), Set::empty())
    } else {
        let st = refs_state(c, b, refs.drop_last());
        step_ref(c, b, st.0, st.1, refs.last())
    }
}

/// `deps` with each glob that is no re-export and from which no name was
/// taken merged in: the import is there, and the edge with it.
pub open spec fn with_unused_globs(
    deps: Seq<DepView>,
    used: Set<(Seq<char>, UsageKind)>,
    globs: Seq<(usize, DepView)>,
) -> Seq<DepView>
    decreases globs.len(),
{
    if globs.len() == 0 {
        deps
    } else {
        let acc = with_unused_globs(deps, used, globs.drop_last());
        let g = globs.last().1;
        if !g.via_reexport && !used.contains(glob_key(g)) {
            dedup_pushed(acc, g)
        } else {
            acc
        }
    }
}

/// The dependencies the path references of a file give.
pub open spec fn path_ref_deps(c: CtxView, b: BindingsView, refs: Seq<PathRef>) -> Seq<DepView> {
    let st = refs_state(c, b, refs);
    with_unused_globs(st.0, st.1, b.state.globs)
}

/// Whether `(key, kind)` stands in `used`.
fn used_contains(used: &Vec<(String, UsageKind)>, key: &str, kind: UsageKind) -> (res: bool)
    ensures
        res == used@.map_values(|e: (String, UsageKind)| (e.0@, e.1)).contains((key@, kind)),
{
    let ghost uv = used@.map_values(|e: (String, UsageKind)| (e.0@, e.1));
    let mut k: usize = 0;
    while k < used.len()
        invariant
            k <= used@.len(),
            uv == used@.map_values(|e: (String, UsageKind)| (e.0@, e.1)),
            forall|j: int| 0 <= j < k ==> uv[j] != (key@, kind),
        decreases used.len() - k,
    {
        assert(uv[k as int] == (used@[k as int].0@, used@[k as int].1));
        if crate::collections::str_eq(used[k].0.as_str(), key) && used[k].1 == kind {
            return true;
        }
        k = k + 1;
    }
    false
}

/// Parse path references into workspace dependencies, each carrying the
/// use the reference is.
///
/// Each reference asks the file's bindings what it stands for. An
/// occurrence of a bound item is that item's dependency again; any other
/// path resolves through the resolution chain. The binding is
/// authoritative: a path it rules out is dropped. A glob the file takes no
/// name from keeps its `*`.
pub fn parse_path_ref_dependencies(
    paths: &Vec<PathRef>,
    ctx: &ResolutionContext,
    bindings: &FileBindings,
) -> (res: Vec<DependencyRef>)
    ensures
        dep_views(res@) == path_ref_deps(ctx@, view_of(*bindings), paths@),
{
    let mut deps: Vec<DependencyRef> = Vec::new();
    let mut used: Vec<(String, UsageKind)> = Vec::new();
    let mut i: usize = 0;
    assert(dep_views(deps@) =~= Seq::<DepView>::empty());
    assert(used@.map_values(|e: (String, UsageKind)| (e.0@, e.1)).to_set() =~= Set::<
        (Seq<char>, UsageKind),
    >::empty());
    while i < paths.len()
        invariant
            i <= paths@.len(),
            dep_views(deps@) == refs_state(ctx@, view_of(*bindings), paths@.take(i as int)).0,
            used@.map_values(|e: (String, UsageKind)| (e.0@, e.1)).to_set() == refs_state(
                ctx@,
                view_of(*bindings),
                paths@.take(i as int),
            ).1,
        decreases paths.len() - i,
    {
        let r = &paths[i];
        proof {
            assert(paths@.take(i + 1).drop_last() =~= paths@.take(i as int));
        }
        match ref_target_exec(ctx, bindings, r) {
            None => {},
            Some(t) => {
                let (mut dep, associated, glob) = t;
                resolve_reexport(&mut dep, ctx.reexport_map, ctx.current_module_path);
                match &dep.target_item {
                    None => {
                        DependencyRef::dedup_push(&mut deps, dep);
                    },
                    Some(item) => {
                        let item = item.clone();
                        if r.position == PathPosition::Binding && !is_matched_by_a_bare_pattern(
                            ctx,
                            &dep,
                        ) {
                        } else {
                            match glob {
                                Some(g) => {
                                    let ghost before = used@;
                                    let ghost gv = (g.0@, g.1);
                                    used.push(g);
                                    proof {
                                        let f = |e: (String, UsageKind)| (e.0@, e.1);
                                        assert(used@.map_values(f) =~= before.map_values(f).push(gv));
                                        before.map_values(f).lemma_push_to_set_commute(gv);
                                    }
                                },
                                None => {},
                            }
                            let category = categorize(
                                ctx,
                                &dep,
                                item.as_str(),
                                r.position,
                                match &associated {
                                    Some(a) => Some(a.as_str()),
                                    None => None,
                                },
                            );
                            assert(opt_str(associated) == match associated {
                                Some(a) => Some(a@),
                                None => None::<Seq<char>>,
                            });
                            dep.uses.push(
                                SymbolUse { line: r.line, category, imported_for_methods: false },
                            );
                            DependencyRef::dedup_push(&mut deps, dep);
                        }
                    },
                }
            },
        }
        i = i + 1;
    }
    assert(paths@.take(i as int) =~= paths@);
    let ghost st = refs_state(ctx@, view_of(*bindings), paths@);
    let ghost gs = state_of(*bindings).globs;
    let mut k: usize = 0;
    while k < bindings.globs.len()
        invariant
            k <= bindings.globs@.len(),
            gs == state_of(*bindings).globs,
            st == refs_state(ctx@, view_of(*bindings), paths@),
            used@.map_values(|e: (String, UsageKind)| (e.0@, e.1)).to_set() == st.1,
            dep_views(deps@) == with_unused_globs(st.0, st.1, gs.take(k as int)),
        decreases bindings.globs.len() - k,
    {
        let glob = &bindings.globs[k].1;
        proof {
            assert(gs.take(k + 1).drop_last() =~= gs.take(k as int));
            assert(gs.take(k + 1).last() == (bindings.globs@[k as int].0, glob@));
        }
        if !glob.via_reexport {
            let key = glob.full_target();
            let seen = used_contains(&used, key.as_str(), glob.context.kind);
            proof {
                let f = |e: (String, UsageKind)| (e.0@, e.1);
                assert(used@.map_values(f).contains((key@, glob.context.kind)) == st.1.contains(
                    glob_key(glob@),
                ));
            }
            if !seen {
                DependencyRef::dedup_push(&mut deps, glob.duplicate());
            }
        }
        k = k + 1;
    }
    assert(gs.take(k as int) =~= gs);
    deps
}

/// The use of an import nothing in the file names. A trait is there for
/// its methods, which method-call syntax never spells out; any other item
/// is a dead import, and the use is what its definition says it is.
pub open spec fn import_only(map: ReExportMap, d: DepView, item: Seq<char>) -> SymbolUse {
    if def_kind_of(map, d, item) == Some(DefKind::Trait) {
        SymbolUse { line: d.line, category: UseCategory::Fns, imported_for_methods: true }
    } else {
        SymbolUse {
            line: d.line,
            category: category_of(map, d, item, PathPosition::Value, None),
            imported_for_methods: false,
        }
    }
}

/// Derive the use of an import nothing in the file names.
pub fn import_only_use(ctx: &ResolutionContext, dep: &DependencyRef, item: &str) -> (res: SymbolUse)
    ensures
        res == import_only(ctx@.reexport_map, dep@, item@),
{
    match definition_kind(ctx, dep, item) {
        Some(DefKind::Trait) => SymbolUse {
            line: dep.line,
            category: UseCategory::Fns,
            imported_for_methods: true,
        },
        _ => SymbolUse {
            line: dep.line,
            category: categorize(ctx, dep, item, PathPosition::Value, None),
            imported_for_methods: false,
        },
    }
}

/// A dependency that carries no use, is no re-export and names an item
/// other than `*`, given the use of an import nothing names.
pub open spec fn with_import_use(map: ReExportMap, d: DepView) -> DepView {
    if d.uses.len() == 0 && !d.via_reexport && d.target_item is Some && d.target_item != Some(star()) {
        DepView { uses: seq![import_only(map, d, d.target_item->0)], ..d }
    } else {
        d
    }
}

/// Every dependency one file writes: those of its `use` items first, then
/// those of its path references merged in, each import nothing names given
/// its use.
pub open spec fn file_deps(
    c: CtxView,
    uses: CollectedUses,
    refs: Seq<PathRef>,
    local: Set<Seq<char>>,
) -> Seq<DepView> {
    let b = BindingsView {
        state: bind_uses(no_bindings(), c, uses.items@),
        parents: uses.regions.parents@,
        local,
    };
    dedup_pushed_all(
        dedup_pushed_all(Seq::empty(), uses_deps(c, uses.items@)),
        path_ref_deps(c, b, refs),
    ).map_values(|d: DepView| with_import_use(c.reexport_map, d))
}

/// Parse every dependency one file writes, with the uses each carries.
///
/// The `use` items name the imports; the path references say where and how
/// each imported name, and each qualified path, is used. Both are resolved
/// against the same bindings and merged by full target and kind, the `use`
/// items first so a location stays at the import line.
pub fn parse_file_dependencies(
    use_items: &CollectedUses,
    path_refs: &Vec<PathRef>,
    local_definitions: crate::collections::StrSet,
    ctx: &ResolutionContext,
) -> (res: Vec<DependencyRef>)
    ensures
        dep_views(res@) == file_deps(ctx@, *use_items, path_refs@, local_definitions@),
{
    let ghost local = local_definitions@;
    let use_deps = parse_workspace_dependencies(&use_items.items, ctx);
    let bindings = FileBindings::of(use_items, local_definitions, ctx);
    let path_deps = parse_path_ref_dependencies(path_refs, ctx, &bindings);
    let ghost start = dep_views(use_deps@);
    let ghost pv = dep_views(path_deps@);
    let mut deps = use_deps;
    let mut rest = path_deps;
    let mut k: usize = 0;
    let count = rest.len();
    while rest.len() > 0
        invariant
            k + rest@.len() == pv.len(),
            pv.len() <= usize::MAX,
            dep_views(rest@) == pv.skip(k as int),
            dep_views(deps@) == dedup_pushed_all(start, pv.take(k as int)),
        decreases rest.len(),
    {
        let ghost before_rest = rest@;
        let d = rest.remove(0);
        proof {
            assert(d@ == dep_views(before_rest)[0]);
            assert(dep_views(rest@) =~= dep_views(before_rest).drop_first());
            assert(pv.skip(k as int).drop_first() =~= pv.skip(k + 1));
            assert(d@ == pv[k as int]);
        }
        DependencyRef::dedup_push(&mut deps, d);
        proof {
            assert(pv.take(k + 1).drop_last() =~= pv.take(k as int));
        }
        k = k + 1;
    }
    assert(pv.take(k as int) =~= pv);
    let ghost merged = dep_views(deps@);
    let merged_count = deps.len();
    assert(merged.len() == merged_count);
    let mut out: Vec<DependencyRef> = Vec::new();
    let mut i: usize = 0;
    let mut source = deps;
    assert(dep_views(out@) =~= Seq::<DepView>::empty());
    while source.len() > 0
        invariant
            i + source@.len() == merged.len(),
            merged.len() <= usize::MAX,
            dep_views(source@) == merged.skip(i as int),
            dep_views(out@) == merged.take(i as int).map_values(
                |d: DepView| with_import_use(ctx@.reexport_map, d),
            ),
        decreases source.len(),
    {
        let ghost before_source = source@;
        let mut dep = source.remove(0);
        proof {
            assert(dep@ == dep_views(before_source)[0]);
            assert(dep_views(source@) =~= dep_views(before_source).drop_first());
            assert(merged.skip(i as int).drop_first() =~= merged.skip(i + 1));
            assert(dep@ == merged[i as int]);
        }
        let ghost original = dep@;
        if dep.uses.len() == 0 && !dep.via_reexport && dep.target_item.is_some() && !is_glob(&dep) {
            let item = dep.target_item.clone().unwrap();
            let symbol_use = import_only_use(ctx, &dep, item.as_str());
            dep.uses.push(symbol_use);
            assert(dep.uses@ =~= seq![symbol_use]);
        }
        let ghost before_out = out@;
        out.push(dep);
        proof {
            assert(dep_views(out@) =~= dep_views(before_out).push(dep@));
            assert(merged.take(i + 1) =~= merged.take(i as int).push(original));
            assert(dep@ == with_import_use(ctx@.reexport_map, original));
        }
        i = i + 1;
    }
    assert(merged.take(i as int) =~= merged);
    out
}

} // verus!
