//! Building the workspace graph from the crates, their module trees and the
//! external crates: crate nodes first, then each resolvable module tree in
//! order with its `Contains` edges, then the crate dependencies, the module
//! dependencies aggregated per target, and last the external crates.

use vstd::prelude::*;

use crate::collections::{str_eq, StrMap};
use crate::sorting::{increasing, insert_line, insert_sorted, lemma_sorted_of, sorted_of, strictly_sorted};
use crate::graph::{arc_edges, arc_nodes, ArcGraph, Edge, Node, SourceLocation};
use crate::analyze::externals::{DependencyKind, ExternalsResult};
use crate::model::{
    module_target_of, normalize_crate_name, normalized, CrateInfo, DependencyRef, EdgeContext,
    ModuleInfo, ModuleTree, TestKind, UsageKind,
};

verus! {

/// A source location as plain values.
pub ghost struct LocView {
    pub file: Seq<char>,
    pub line: usize,
    pub symbols: Seq<Seq<char>>,
    pub module: Seq<char>,
    pub via_reexport: bool,
}

/// An edge as plain values.
pub ghost enum EdgeView {
    CrateDep { context: (UsageKind, Seq<String>) },
    ModuleDep { locations: Seq<LocView>, context: (UsageKind, Seq<String>) },
    Contains,
    DevDep,
}

/// The view of a source location.
pub open spec fn loc_view(l: SourceLocation) -> LocView {
    LocView {
        file: l.file@,
        line: l.line,
        symbols: l.symbols@.map_values(|s: String| s@),
        module: l.module@,
        via_reexport: l.via_reexport,
    }
}

/// The view of an edge.
pub open spec fn edge_view(e: Edge) -> EdgeView {
    match e {
        Edge::CrateDep { context } => EdgeView::CrateDep { context: context@ },
        Edge::ModuleDep { locations, context } => EdgeView::ModuleDep {
            locations: locations@.map_values(|l: SourceLocation| loc_view(l)),
            context: context@,
        },
        Edge::Contains => EdgeView::Contains,
        Edge::DevDep => EdgeView::DevDep,
    }
}

/// A sequence of edges as plain values.
pub open spec fn edge_views_of(edges: Seq<(usize, usize, Edge)>) -> Seq<(usize, usize, EdgeView)> {
    edges.map_values(|e: (usize, usize, Edge)| (e.0, e.1, edge_view(e.2)))
}

/// The edges of a graph as plain values.
pub open spec fn edge_views(g: ArcGraph) -> Seq<(usize, usize, EdgeView)> {
    edge_views_of(arc_edges(g.0))
}

/// What the build has made so far: the nodes and edges, the crate nodes by
/// normalized name, the module nodes by path, and the dependencies of each
/// module added, in order, for the module edges.
pub ghost struct Build {
    pub nodes: Seq<Node>,
    pub edges: Seq<(usize, usize, EdgeView)>,
    pub crate_map: Map<Seq<char>, usize>,
    pub module_map: Map<Seq<char>, usize>,
    pub stash: Seq<(Seq<char>, Seq<DependencyRef>)>,
}

/// A name's node: a module by its path, else a crate by its normalized name.
pub open spec fn resolve(b: Build, name: Seq<char>) -> Option<usize> {
    if b.module_map.dom().contains(name) {
        Some(b.module_map[name])
    } else if b.crate_map.dom().contains(normalized(name)) {
        Some(b.crate_map[normalized(name)])
    } else {
        None
    }
}

/// The crate node of a crate.
pub open spec fn crate_node(c: CrateInfo) -> Node {
    Node::Crate { name: c.name, path: c.path }
}

/// The build after the first `k` crates' nodes.
pub open spec fn with_crates(crates: Seq<CrateInfo>, k: int) -> Build
    decreases k,
{
    if k <= 0 || k > crates.len() {
        Build {
            nodes: Seq::empty(),
            edges: Seq::empty(),
            crate_map: Map::empty(),
            module_map: Map::empty(),
            stash: Seq::empty(),
        }
    } else {
        let b = with_crates(crates, k - 1);
        Build {
            nodes: b.nodes.push(crate_node(crates[k - 1])),
            crate_map: b.crate_map.insert(normalized(crates[k - 1].name@), b.nodes.len() as usize),
            ..b
        }
    }
}

/// `b` with a module's dependencies stashed for its edges, where it has any.
pub open spec fn stashed(b: Build, path: Seq<char>, deps: Seq<DependencyRef>) -> Build {
    if deps.len() > 0 {
        Build { stash: b.stash.push((path, deps)), ..b }
    } else {
        b
    }
}

/// The build after adding module `m` of crate `crate_idx` under `parent`,
/// and its subtree.
pub open spec fn with_module(b: Build, m: ModuleInfo, crate_idx: usize, parent: usize) -> Build
    decreases m, 1int,
{
    let idx = b.nodes.len() as usize;
    let b1 = Build {
        nodes: b.nodes.push(Node::Module { name: m.name, crate_idx }),
        edges: b.edges.push((parent, idx, EdgeView::Contains)),
        module_map: b.module_map.insert(m.full_path@, idx),
        ..b
    };
    let b2 = stashed(b1, m.full_path@, m.dependencies@);
    with_children(b2, m.children@, crate_idx, idx, m.children@.len() as int)
}

/// The build after adding the first `k` of `children` under `parent`.
pub open spec fn with_children(b: Build, children: Seq<ModuleInfo>, crate_idx: usize, parent: usize, k: int) -> Build
    decreases children, k,
{
    if k <= 0 || k > children.len() {
        b
    } else {
        with_module(with_children(b, children, crate_idx, parent, k - 1), children[k - 1], crate_idx, parent)
    }
}

/// The build after a module tree: skipped where its root names no node.
pub open spec fn with_tree(b: Build, t: ModuleTree) -> Build {
    match resolve(b, t.root.name@) {
        None => b,
        Some(crate_idx) => {
            let b1 = stashed(b, t.root.name@, t.root.dependencies@);
            with_children(b1, t.root.children@, crate_idx, crate_idx, t.root.children@.len() as int)
        },
    }
}

/// The build after the first `k` module trees.
pub open spec fn with_trees(b: Build, trees: Seq<ModuleTree>, k: int) -> Build
    decreases k,
{
    if k <= 0 || k > trees.len() {
        b
    } else {
        with_tree(with_trees(b, trees, k - 1), trees[k - 1])
    }
}

/// The edges from `from` to each of the first `k` dependency names that
/// name a crate, each with `edge`.
pub open spec fn dep_edges(b: Build, from: usize, names: Seq<String>, edge: EdgeView, k: int) -> Seq<(usize, usize, EdgeView)>
    decreases k,
{
    if k <= 0 || k > names.len() {
        Seq::empty()
    } else if b.crate_map.dom().contains(normalized(names[k - 1]@)) {
        dep_edges(b, from, names, edge, k - 1).push((from, b.crate_map[normalized(names[k - 1]@)], edge))
    } else {
        dep_edges(b, from, names, edge, k - 1)
    }
}

/// `b` with `extra` edges after its own.
pub open spec fn with_edges(b: Build, extra: Seq<(usize, usize, EdgeView)>) -> Build {
    Build { edges: b.edges + extra, ..b }
}

/// More dependency names give no fewer edges.
pub proof fn lemma_dep_edges_prefix(b: Build, from: usize, names: Seq<String>, edge: EdgeView, k1: int, k2: int)
    requires
        0 <= k1 <= k2 <= names.len(),
    ensures
        dep_edges(b, from, names, edge, k2).len() >= dep_edges(b, from, names, edge, k1).len(),
    decreases k2,
{
    if k1 < k2 {
        lemma_dep_edges_prefix(b, from, names, edge, k1, k2 - 1);
    }
}

/// How a dev-dependency shows: a test edge with tests included, the hidden
/// `DevDep` otherwise.
pub open spec fn dev_edge(include_tests: bool) -> EdgeView {
    if include_tests {
        EdgeView::CrateDep { context: (UsageKind::Test(TestKind::Unit), Seq::empty()) }
    } else {
        EdgeView::DevDep
    }
}

/// The crate dependency edges of one crate: its dependencies in production,
/// then its dev-dependencies; nothing where its name names no crate.
pub open spec fn crate_dep_edges(b: Build, c: CrateInfo, include_tests: bool) -> Seq<(usize, usize, EdgeView)> {
    if b.crate_map.dom().contains(normalized(c.name@)) {
        let from = b.crate_map[normalized(c.name@)];
        dep_edges(
            b,
            from,
            c.dependencies@,
            EdgeView::CrateDep { context: (UsageKind::Production, Seq::empty()) },
            c.dependencies@.len() as int,
        ) + dep_edges(b, from, c.dev_dependencies@, dev_edge(include_tests), c.dev_dependencies@.len() as int)
    } else {
        Seq::empty()
    }
}

/// The build after the crate dependency edges of the first `k` crates.
pub open spec fn with_crate_deps(b: Build, crates: Seq<CrateInfo>, include_tests: bool, k: int) -> Build
    decreases k,
{
    if k <= 0 || k > crates.len() {
        b
    } else {
        let prev = with_crate_deps(b, crates, include_tests, k - 1);
        Build { edges: prev.edges + crate_dep_edges(prev, crates[k - 1], include_tests), ..prev }
    }
}

/// The dependencies of the first `k` of `deps` that point at `key`, in order.
pub open spec fn group_of(deps: Seq<DependencyRef>, key: Seq<char>, k: int) -> Seq<DependencyRef>
    decreases k,
{
    if k <= 0 || k > deps.len() {
        Seq::empty()
    } else if module_target_of(deps[k - 1]@) == key {
        group_of(deps, key, k - 1).push(deps[k - 1])
    } else {
        group_of(deps, key, k - 1)
    }
}

/// The nodes the dependencies point at.
pub open spec fn targets(deps: Seq<DependencyRef>) -> Set<Seq<char>> {
    deps.map_values(|d: DependencyRef| module_target_of(d@)).to_set()
}

/// The context of the edge a group of dependencies makes: production where
/// one of them is, else the first one's.
pub open spec fn aggregate(group: Seq<DependencyRef>) -> (UsageKind, Seq<String>) {
    if exists|i: int| 0 <= i < group.len() && (#[trigger] group[i]).context.kind == UsageKind::Production {
        (UsageKind::Production, Seq::empty())
    } else {
        group[0].context@
    }
}

/// The files the dependencies are written in.
pub open spec fn files_of(group: Seq<DependencyRef>) -> Set<Seq<char>> {
    group.map_values(|d: DependencyRef| d.source_file@).to_set()
}

/// The lines of `file` the dependencies are written on.
pub open spec fn lines_of(group: Seq<DependencyRef>, file: Seq<char>) -> Set<usize> {
    Set::new(|l: usize| exists|i: int| 0 <= i < group.len() && (#[trigger] group[i]).source_file@ == file && group[i].line == l)
}

/// The lines of a set, ascending.
pub open spec fn sorted_lines(s: Set<usize>) -> Seq<usize> {
    choose|q: Seq<usize>| increasing(q) && q.to_set() == s
}

/// The dependencies of the first `k` written at `file`, `line`.
pub open spec fn at_line(group: Seq<DependencyRef>, file: Seq<char>, line: usize, k: int) -> Seq<DependencyRef>
    decreases k,
{
    if k <= 0 || k > group.len() {
        Seq::empty()
    } else if group[k - 1].source_file@ == file && group[k - 1].line == line {
        at_line(group, file, line, k - 1).push(group[k - 1])
    } else {
        at_line(group, file, line, k - 1)
    }
}

/// The items the first `k` dependencies name, in order.
pub open spec fn symbols_of(ds: Seq<DependencyRef>, k: int) -> Seq<Seq<char>>
    decreases k,
{
    if k <= 0 || k > ds.len() {
        Seq::empty()
    } else {
        match ds[k - 1].target_item {
            Some(item) => symbols_of(ds, k - 1).push(item@),
            None => symbols_of(ds, k - 1),
        }
    }
}

/// The location of one file and line of a group.
pub open spec fn loc_at(group: Seq<DependencyRef>, file: Seq<char>, line: usize, module: Seq<char>) -> LocView {
    let here = at_line(group, file, line, group.len() as int);
    LocView {
        file,
        line,
        symbols: symbols_of(here, here.len() as int),
        module,
        via_reexport: forall|i: int| 0 <= i < here.len() ==> (#[trigger] here[i]).via_reexport,
    }
}

/// The locations in `file`, by ascending line.
pub open spec fn file_locs(group: Seq<DependencyRef>, file: Seq<char>, module: Seq<char>) -> Seq<LocView> {
    sorted_lines(lines_of(group, file)).map_values(|l: usize| loc_at(group, file, l, module))
}

/// The locations in the first `k` of `files`, file by file.
pub open spec fn locs_over(group: Seq<DependencyRef>, files: Seq<Seq<char>>, module: Seq<char>, k: int) -> Seq<LocView>
    decreases k,
{
    if k <= 0 || k > files.len() {
        Seq::empty()
    } else {
        locs_over(group, files, module, k - 1) + file_locs(group, files[k - 1], module)
    }
}

/// The module a group's locations name: the first dependency's module, or
/// the target where that is the crate root.
pub open spec fn module_of_group(group: Seq<DependencyRef>, key: Seq<char>) -> Seq<char> {
    if group[0].target_module@.len() == 0 {
        key
    } else {
        group[0].target_module@
    }
}

/// The locations of a group: per file in name order, per line ascending.
pub open spec fn locations_of(group: Seq<DependencyRef>, key: Seq<char>) -> Seq<LocView> {
    let files = sorted_of(files_of(group));
    locs_over(group, files, module_of_group(group, key), files.len() as int)
}

/// The module edges from `from` for the first `k` target keys: one per key
/// that names another node, with the group's locations and context.
pub open spec fn keys_edges(b: Build, from: usize, deps: Seq<DependencyRef>, keys: Seq<Seq<char>>, k: int) -> Seq<(usize, usize, EdgeView)>
    decreases k,
{
    if k <= 0 || k > keys.len() {
        Seq::empty()
    } else {
        let prev = keys_edges(b, from, deps, keys, k - 1);
        let key = keys[k - 1];
        let group = group_of(deps, key, deps.len() as int);
        match resolve(b, key) {
            Some(to) => if to != from {
                prev.push((from, to, EdgeView::ModuleDep { locations: locations_of(group, key), context: aggregate(group) }))
            } else {
                prev
            },
            None => prev,
        }
    }
}

/// The module edges of one stashed module: none where its path names no
/// node, else one per target in name order.
pub open spec fn entry_edges(b: Build, path: Seq<char>, deps: Seq<DependencyRef>) -> Seq<(usize, usize, EdgeView)> {
    match resolve(b, path) {
        None => Seq::empty(),
        Some(from) => {
            let keys = sorted_of(targets(deps));
            keys_edges(b, from, deps, keys, keys.len() as int)
        },
    }
}

/// The module edges of the first `k` stashed modules.
pub open spec fn stash_edges(b: Build, k: int) -> Seq<(usize, usize, EdgeView)>
    decreases k,
{
    if k <= 0 || k > b.stash.len() {
        Seq::empty()
    } else {
        stash_edges(b, k - 1) + entry_edges(b, b.stash[k - 1].0, b.stash[k - 1].1)
    }
}

/// The build after the module dependency edges.
pub open spec fn with_module_deps(b: Build) -> Build {
    with_edges(b, stash_edges(b, b.stash.len() as int))
}

/// Two ascending line lists of the same lines are the same list.
pub proof fn lemma_increasing_unique(x: Seq<usize>, y: Seq<usize>)
    requires
        increasing(x),
        increasing(y),
        x.to_set() == y.to_set(),
    ensures
        x == y,
    decreases x.len(),
{
    if x.len() == 0 {
        if y.len() > 0 {
            assert(y.to_set().contains(y[0]));
        }
        assert(x =~= y);
    } else if y.len() == 0 {
        assert(x.to_set().contains(x[0]));
    } else {
        assert(x.to_set().contains(x[0]));
        assert(y.to_set().contains(y[0]));
        let j = choose|j: int| 0 <= j < y.len() && y[j] == x[0];
        let i = choose|i: int| 0 <= i < x.len() && x[i] == y[0];
        if j > 0 {
            assert(y[0] < y[j]);
            if i > 0 {
                assert(x[0] < x[i]);
            }
        }
        let xs = x.drop_first();
        let ys = y.drop_first();
        assert forall|e: usize| xs.to_set().contains(e) <==> ys.to_set().contains(e) by {
            if xs.to_set().contains(e) {
                let k = choose|k: int| 0 <= k < xs.len() && xs[k] == e;
                assert(x[k + 1] == e);
                assert(x.to_set().contains(e));
                let m = choose|m: int| 0 <= m < y.len() && y[m] == e;
                assert(m != 0);
                assert(ys[m - 1] == e);
            }
            if ys.to_set().contains(e) {
                let k = choose|k: int| 0 <= k < ys.len() && ys[k] == e;
                assert(y[k + 1] == e);
                assert(y.to_set().contains(e));
                let m = choose|m: int| 0 <= m < x.len() && x[m] == e;
                assert(m != 0);
                assert(xs[m - 1] == e);
            }
        }
        assert(xs.to_set() =~= ys.to_set());
        lemma_increasing_unique(xs, ys);
        assert(x =~= seq![x[0]] + xs);
        assert(y =~= seq![y[0]] + ys);
    }
}

/// An ascending list of a set's lines is the set's sorted list.
pub proof fn lemma_sorted_lines(q: Seq<usize>, s: Set<usize>)
    requires
        increasing(q),
        q.to_set() == s,
    ensures
        sorted_lines(s) == q,
{
    let r = sorted_lines(s);
    assert(increasing(r) && r.to_set() == s);
    lemma_increasing_unique(r, q);
}

/// Naming items looks at no dependency past the count.
pub proof fn lemma_symbols_prefix(s: Seq<DependencyRef>, d: DependencyRef, k: int)
    requires
        0 <= k <= s.len(),
    ensures
        symbols_of(s.push(d), k) == symbols_of(s, k),
    decreases k,
{
    if k > 0 {
        lemma_symbols_prefix(s, d, k - 1);
        assert(s.push(d)[k - 1] == s[k - 1]);
    }
}

/// The views of a group held by reference.
pub open spec fn group_view(group: Seq<&DependencyRef>) -> Seq<DependencyRef> {
    group.map_values(|r: &DependencyRef| *r)
}

/// The location of `file`, `line` in a group.
fn location_at(group: &Vec<&DependencyRef>, file: &String, line: usize, module: &String) -> (res: SourceLocation)
    ensures
        loc_view(res) == loc_at(group_view(group@), file@, line, module@),
{
    let ghost gv = group_view(group@);
    let mut symbols: Vec<String> = Vec::new();
    let mut all_reexport = true;
    let mut k: usize = 0;
    while k < group.len()
        invariant
            k <= group@.len(),
            gv == group_view(group@),
            symbols@.map_values(|s: String| s@) == symbols_of(at_line(gv, file@, line, k as int), at_line(gv, file@, line, k as int).len() as int),
            all_reexport == (forall|i: int| 0 <= i < at_line(gv, file@, line, k as int).len() ==> (#[trigger] at_line(gv, file@, line, k as int)[i]).via_reexport),
        decreases group.len() - k,
    {
        let d = group[k];
        assert(gv[k as int] == *d);
        let ghost here = at_line(gv, file@, line, k as int);
        if str_eq(d.source_file.as_str(), file.as_str()) && d.line == line {
            assert(at_line(gv, file@, line, k + 1) == here.push(*d));
            proof {
                lemma_symbols_prefix(here, *d, here.len() as int);
            }
            let ghost before = symbols@;
            match &d.target_item {
                Some(item) => {
                    symbols.push(item.clone());
                    assert(symbols@.map_values(|s: String| s@) =~= before.map_values(|s: String| s@).push(item@));
                },
                None => {},
            }
            all_reexport = all_reexport && d.via_reexport;
            proof {
                let next = here.push(*d);
                if all_reexport {
                    assert forall|i: int| 0 <= i < next.len() implies (#[trigger] next[i]).via_reexport by {
                        if i < here.len() {
                            assert(next[i] == here[i]);
                        }
                    }
                } else {
                    if !d.via_reexport {
                        assert(!next[here.len() as int].via_reexport);
                    } else {
                        let i = choose|i: int| 0 <= i < here.len() && !(#[trigger] here[i]).via_reexport;
                        assert(next[i] == here[i]);
                    }
                }
            }
        } else {
            assert(at_line(gv, file@, line, k + 1) == here);
        }
        k = k + 1;
    }
    assert(gv.len() == group@.len());
    SourceLocation { file: file.clone(), line, symbols, module: module.clone(), via_reexport: all_reexport }
}

/// The source locations of a group of dependencies on one target: per file
/// in name order, per line ascending, with the items named there and
/// whether every reference there is a re-export.
fn build_source_locations(group: &Vec<&DependencyRef>, target: &String) -> (res: Vec<SourceLocation>)
    requires
        group@.len() > 0,
    ensures
        res@.map_values(|l: SourceLocation| loc_view(l)) == locations_of(group_view(group@), target@),
{
    let ghost gv = group_view(group@);
    assert(gv[0] == *group@[0]);
    let module = if group[0].target_module.as_str().is_empty() {
        target.clone()
    } else {
        group[0].target_module.clone()
    };
    assert(module@ == module_of_group(gv, target@));
    let mut files: Vec<String> = Vec::new();
    let mut k: usize = 0;
    assert(files@.map_values(|x: String| x@) =~= Seq::<Seq<char>>::empty());
    while k < group.len()
        invariant
            k <= group@.len(),
            gv == group_view(group@),
            strictly_sorted(files@.map_values(|x: String| x@)),
            files@.map_values(|x: String| x@).to_set() == gv.take(k as int).map_values(|d: DependencyRef| d.source_file@).to_set(),
        decreases group.len() - k,
    {
        assert(gv[k as int] == *group@[k as int]);
        insert_sorted(&mut files, group[k].source_file.clone());
        proof {
            let prev = gv.take(k as int).map_values(|d: DependencyRef| d.source_file@);
            let next = gv.take(k + 1).map_values(|d: DependencyRef| d.source_file@);
            assert(next =~= prev.push(gv[k as int].source_file@));
            prev.lemma_push_to_set_commute(gv[k as int].source_file@);
        }
        k = k + 1;
    }
    let ghost fv = files@.map_values(|x: String| x@);
    proof {
        assert(gv.take(gv.len() as int) =~= gv);
        lemma_sorted_of(fv, files_of(gv));
    }
    let mut locations: Vec<SourceLocation> = Vec::new();
    let mut f: usize = 0;
    while f < files.len()
        invariant
            f <= files@.len(),
            gv == group_view(group@),
            fv == files@.map_values(|x: String| x@),
            module@ == module_of_group(gv, target@),
            locations@.map_values(|l: SourceLocation| loc_view(l)) == locs_over(gv, fv, module@, f as int),
        decreases files.len() - f,
    {
        let file = &files[f];
        assert(fv[f as int] == file@);
        let mut lines: Vec<usize> = Vec::new();
        let mut k: usize = 0;
        while k < group.len()
            invariant
                k <= group@.len(),
                gv == group_view(group@),
                increasing(lines@),
                lines@.to_set() == Set::new(|l: usize| exists|i: int| 0 <= i < k && (#[trigger] gv[i]).source_file@ == file@ && gv[i].line == l),
            decreases group.len() - k,
        {
            let d = group[k];
            assert(gv[k as int] == *d);
            let ghost before = lines@.to_set();
            if str_eq(d.source_file.as_str(), file.as_str()) {
                insert_line(&mut lines, d.line);
            }
            assert(lines@.to_set() =~= Set::new(|l: usize| exists|i: int| 0 <= i < k + 1 && (#[trigger] gv[i]).source_file@ == file@ && gv[i].line == l)) by {
                assert forall|l: usize| lines@.to_set().contains(l) implies exists|i: int| 0 <= i < k + 1 && (#[trigger] gv[i]).source_file@ == file@ && gv[i].line == l by {
                    if !before.contains(l) {
                        assert(gv[k as int].source_file@ == file@ && gv[k as int].line == l);
                    }
                }
            }
            k = k + 1;
        }
        proof {
            assert(lines@.to_set() =~= lines_of(gv, file@));
            lemma_sorted_lines(lines@, lines_of(gv, file@));
        }
        let ghost base = locations@.map_values(|l: SourceLocation| loc_view(l));
        let mut li: usize = 0;
        while li < lines.len()
            invariant
                li <= lines@.len(),
                gv == group_view(group@),
                module@ == module_of_group(gv, target@),
                lines@ == sorted_lines(lines_of(gv, file@)),
                locations@.map_values(|l: SourceLocation| loc_view(l)) == base + lines@.take(li as int).map_values(
                    |l: usize| loc_at(gv, file@, l, module@),
                ),
            decreases lines.len() - li,
        {
            let loc = location_at(group, file, lines[li], &module);
            let ghost before = locations@;
            locations.push(loc);
            proof {
                assert(locations@ == before.push(loc));
                assert(lines@.take(li + 1).map_values(|l: usize| loc_at(gv, file@, l, module@)) =~= lines@.take(
                    li as int,
                ).map_values(|l: usize| loc_at(gv, file@, l, module@)).push(loc_at(gv, file@, lines@[li as int], module@)));
                assert(locations@.map_values(|l: SourceLocation| loc_view(l)) =~= before.map_values(|l: SourceLocation| loc_view(l)).push(
                    loc_view(loc),
                ));
            }
            li = li + 1;
        }
        proof {
            assert(lines@.take(lines@.len() as int) =~= lines@);
            assert(locs_over(gv, fv, module@, f + 1) == locs_over(gv, fv, module@, f as int) + file_locs(gv, fv[f as int], module@));
        }
        f = f + 1;
    }
    locations
}

/// A group's edge is a production edge exactly where some dependency of
/// the group is production code, wherever in the group it stands; where
/// none is, the edge takes the first dependency's context.
pub proof fn lemma_aggregate_production(group: Seq<DependencyRef>)
    requires
        group.len() > 0,
    ensures
        (exists|i: int| 0 <= i < group.len() && (#[trigger] group[i]).context.kind == UsageKind::Production)
            ==> aggregate(group) == (UsageKind::Production, Seq::<String>::empty()),
        (forall|i: int| 0 <= i < group.len() ==> (#[trigger] group[i]).context.kind != UsageKind::Production)
            ==> aggregate(group) == group[0].context@,
        (aggregate(group).0 == UsageKind::Production) <==> exists|i: int|
            0 <= i < group.len() && (#[trigger] group[i]).context.kind == UsageKind::Production,
{
}

/// Whether some of the dependencies point at `key` from production code.
pub open spec fn production_dep_to(deps: Seq<DependencyRef>, key: Seq<char>) -> bool {
    exists|d: int| 0 <= d < deps.len() && module_target_of((#[trigger] deps[d])@) == key && deps[d].context.kind
        == UsageKind::Production
}

/// Whether some of the dependencies point at `key`.
pub open spec fn some_dep_to(deps: Seq<DependencyRef>, key: Seq<char>) -> bool {
    exists|d: int| 0 <= d < deps.len() && module_target_of((#[trigger] deps[d])@) == key
}

/// Whether `x` is one of the first `n` dependencies.
pub open spec fn among(deps: Seq<DependencyRef>, x: DependencyRef, n: int) -> bool {
    exists|d: int| 0 <= d < n && #[trigger] deps[d] == x
}

/// A group holds exactly the dependencies that point at its key.
proof fn lemma_group_members(deps: Seq<DependencyRef>, key: Seq<char>, n: int)
    requires
        0 <= n <= deps.len(),
    ensures
        forall|i: int| 0 <= i < group_of(deps, key, n).len() ==> module_target_of((#[trigger] group_of(deps, key, n)[i])@) == key,
        forall|i: int| 0 <= i < group_of(deps, key, n).len() ==> among(deps, #[trigger] group_of(deps, key, n)[i], n),
        forall|d: int| 0 <= d < n && module_target_of((#[trigger] deps[d])@) == key ==> group_of(deps, key, n).contains(deps[d]),
    decreases n,
{
    if n > 0 {
        lemma_group_members(deps, key, n - 1);
        let g = group_of(deps, key, n - 1);
        let h = group_of(deps, key, n);
        if module_target_of(deps[n - 1]@) == key {
            assert(h == g.push(deps[n - 1]));
            assert forall|i: int| 0 <= i < h.len() implies among(deps, #[trigger] h[i], n) by {
                if i < g.len() {
                    assert(h[i] == g[i]);
                    assert(among(deps, g[i], n - 1));
                    let d = choose|d: int| 0 <= d < n - 1 && #[trigger] deps[d] == g[i];
                    assert(deps[d] == h[i]);
                } else {
                    assert(deps[n - 1] == h[i]);
                }
            }
            assert forall|d: int| 0 <= d < n && module_target_of((#[trigger] deps[d])@) == key implies h.contains(deps[d]) by {
                if d < n - 1 {
                    assert(g.contains(deps[d]));
                    let i = choose|i: int| 0 <= i < g.len() && g[i] == deps[d];
                    assert(h[i] == deps[d]);
                } else {
                    assert(h[h.len() - 1] == deps[d]);
                }
            }
        } else {
            assert forall|i: int| 0 <= i < h.len() implies among(deps, #[trigger] h[i], n) by {
                assert(among(deps, g[i], n - 1));
                let d = choose|d: int| 0 <= d < n - 1 && #[trigger] deps[d] == g[i];
                assert(deps[d] == h[i]);
            }
        }
    }
}

/// The context of the edge a group makes: production exactly where a
/// dependency pointing at the key is production code; where dependencies
/// point at the key and none is, not production.
proof fn lemma_group_context(deps: Seq<DependencyRef>, key: Seq<char>)
    ensures
        production_dep_to(deps, key) ==> aggregate(group_of(deps, key, deps.len() as int)) == (
            UsageKind::Production,
            Seq::<String>::empty(),
        ),
        some_dep_to(deps, key) && !production_dep_to(deps, key) ==> aggregate(group_of(deps, key, deps.len() as int)).0
            != UsageKind::Production,
{
    let n = deps.len() as int;
    let g = group_of(deps, key, n);
    lemma_group_members(deps, key, n);
    if production_dep_to(deps, key) {
        let d = choose|d: int| 0 <= d < deps.len() && module_target_of((#[trigger] deps[d])@) == key && deps[d].context.kind
            == UsageKind::Production;
        assert(g.contains(deps[d]));
        let i = choose|i: int| 0 <= i < g.len() && g[i] == deps[d];
        assert(g[i].context.kind == UsageKind::Production);
        lemma_aggregate_production(g);
    } else if some_dep_to(deps, key) {
        let d = choose|d: int| 0 <= d < deps.len() && module_target_of((#[trigger] deps[d])@) == key;
        assert(g.contains(deps[d]));
        assert forall|i: int| 0 <= i < g.len() implies (#[trigger] g[i]).context.kind != UsageKind::Production by {
            assert(among(deps, g[i], n));
            let e = choose|e: int| 0 <= e < n && #[trigger] deps[e] == g[i];
            assert(module_target_of(deps[e]@) == key);
        }
        lemma_aggregate_production(g);
    }
}

/// Whether `e` is the module edge from `from` for one of the first `k`
/// target keys: to the key's node, production exactly where a dependency
/// pointing at the key is production code.
pub open spec fn edge_for_key(
    b: Build,
    from: usize,
    deps: Seq<DependencyRef>,
    keys: Seq<Seq<char>>,
    k: int,
    e: (usize, usize, EdgeView),
) -> bool {
    exists|t: int| {
        &&& 0 <= t < k
        &&& e.0 == from
        &&& #[trigger] resolve(b, keys[t]) == Some(e.1)
        &&& e.2 is ModuleDep
        &&& (e.2->ModuleDep_context.0 == UsageKind::Production <==> production_dep_to(deps, keys[t]))
        &&& (production_dep_to(deps, keys[t]) ==> e.2->ModuleDep_context == (UsageKind::Production, Seq::<String>::empty()))
    }
}

/// Each module edge a module's dependencies make runs from the module to a
/// target key's node, and is a production edge exactly where a dependency
/// pointing at that key is production code, whatever the dependencies'
/// order.
pub proof fn lemma_module_edge_context(b: Build, from: usize, deps: Seq<DependencyRef>, keys: Seq<Seq<char>>, k: int)
    requires
        0 <= k <= keys.len(),
        forall|t: int| 0 <= t < keys.len() ==> some_dep_to(deps, #[trigger] keys[t]),
    ensures
        forall|m: int| 0 <= m < keys_edges(b, from, deps, keys, k).len() ==> edge_for_key(b, from, deps, keys, k, #[trigger] keys_edges(b, from, deps, keys, k)[m]),
    decreases k,
{
    if k > 0 {
        lemma_module_edge_context(b, from, deps, keys, k - 1);
        let prev = keys_edges(b, from, deps, keys, k - 1);
        let cur = keys_edges(b, from, deps, keys, k);
        let key = keys[k - 1];
        lemma_group_context(deps, key);
        assert forall|m: int| 0 <= m < cur.len() implies edge_for_key(b, from, deps, keys, k, #[trigger] cur[m]) by {
            if m < prev.len() {
                assert(cur[m] == prev[m]);
                assert(edge_for_key(b, from, deps, keys, k - 1, prev[m]));
                let t = choose|t: int| {
                    let e = prev[m];
                    &&& 0 <= t < k - 1
                    &&& e.0 == from
                    &&& #[trigger] resolve(b, keys[t]) == Some(e.1)
                    &&& e.2 is ModuleDep
                    &&& (e.2->ModuleDep_context.0 == UsageKind::Production <==> production_dep_to(deps, keys[t]))
                    &&& (production_dep_to(deps, keys[t]) ==> e.2->ModuleDep_context == (UsageKind::Production, Seq::<String>::empty()))
                };
                assert(resolve(b, keys[t]) == Some(cur[m].1));
            } else {
                assert(some_dep_to(deps, keys[k - 1]));
                assert(resolve(b, keys[k - 1]) == Some(cur[m].1));
            }
        }
    }
}

/// Whether `e` is a module edge from `from` to the node of a module some
/// dependency points at, production exactly where a dependency pointing
/// there is production code.
pub open spec fn edge_for_dep(b: Build, from: usize, deps: Seq<DependencyRef>, e: (usize, usize, EdgeView)) -> bool {
    exists|key: Seq<char>| {
        &&& some_dep_to(deps, key)
        &&& e.0 == from
        &&& #[trigger] resolve(b, key) == Some(e.1)
        &&& e.2 is ModuleDep
        &&& (e.2->ModuleDep_context.0 == UsageKind::Production <==> production_dep_to(deps, key))
        &&& (production_dep_to(deps, key) ==> e.2->ModuleDep_context == (UsageKind::Production, Seq::<String>::empty()))
    }
}

/// The module edges of one stashed module: each runs from the module to a
/// target of its dependencies, and is production exactly where one of the
/// dependencies pointing there is production code.
pub proof fn lemma_entry_edge_context(b: Build, path: Seq<char>, deps: Seq<DependencyRef>)
    ensures
        forall|m: int| 0 <= m < entry_edges(b, path, deps).len() ==> ({
            &&& resolve(b, path) is Some
            &&& edge_for_dep(b, resolve(b, path)->0, deps, #[trigger] entry_edges(b, path, deps)[m])
        }),
{
    match resolve(b, path) {
        None => {},
        Some(from) => {
            let names = deps.map_values(|d: DependencyRef| module_target_of(d@));
            vstd::seq_lib::seq_to_set_is_finite(names);
            crate::sorting::lemma_sorted_exists(targets(deps));
            let keys = sorted_of(targets(deps));
            assert forall|t: int| 0 <= t < keys.len() implies some_dep_to(deps, #[trigger] keys[t]) by {
                assert(keys.to_set().contains(keys[t]));
                assert(names.to_set().contains(keys[t]));
                let d = choose|d: int| 0 <= d < names.len() && names[d] == keys[t];
                assert(module_target_of(deps[d]@) == keys[t]);
            }
            lemma_module_edge_context(b, from, deps, keys, keys.len() as int);
            let es = entry_edges(b, path, deps);
            assert forall|m: int| 0 <= m < es.len() implies edge_for_dep(b, from, deps, #[trigger] es[m]) by {
                assert(edge_for_key(b, from, deps, keys, keys.len() as int, es[m]));
                let t = choose|t: int| {
                    let e = es[m];
                    &&& 0 <= t < keys.len()
                    &&& e.0 == from
                    &&& #[trigger] resolve(b, keys[t]) == Some(e.1)
                    &&& e.2 is ModuleDep
                    &&& (e.2->ModuleDep_context.0 == UsageKind::Production <==> production_dep_to(deps, keys[t]))
                    &&& (production_dep_to(deps, keys[t]) ==> e.2->ModuleDep_context == (UsageKind::Production, Seq::<String>::empty()))
                };
                assert(some_dep_to(deps, keys[t]));
                assert(resolve(b, keys[t]) == Some(es[m].1));
            }
        },
    }
}

/// The context of a group's edge: production where one of them is, else
/// the first one's.
fn aggregate_context(group: &Vec<&DependencyRef>) -> (res: EdgeContext)
    requires
        group@.len() > 0,
    ensures
        res@ == aggregate(group_view(group@)),
        (exists|i: int| 0 <= i < group@.len() && (#[trigger] group@[i]).context.kind == UsageKind::Production)
            ==> res@ == (UsageKind::Production, Seq::<String>::empty()),
        (forall|i: int| 0 <= i < group@.len() ==> (#[trigger] group@[i]).context.kind != UsageKind::Production)
            ==> res@ == group@[0].context@,
{
    proof {
        lemma_aggregate_production(group_view(group@));
        assert forall|i: int| 0 <= i < group@.len() implies #[trigger] group_view(group@)[i] == *group@[i] by {}
    }
    let ghost gv = group_view(group@);
    let mut k: usize = 0;
    while k < group.len()
        invariant
            k <= group@.len(),
            gv == group_view(group@),
            forall|i: int| 0 <= i < k ==> (#[trigger] gv[i]).context.kind != UsageKind::Production,
        decreases group.len() - k,
    {
        assert(gv[k as int] == *group@[k as int]);
        if group[k].context.kind == UsageKind::Production {
            return EdgeContext::production();
        }
        k = k + 1;
    }
    assert(gv[0] == *group@[0]);
    assert forall|i: int| 0 <= i < group@.len() implies (#[trigger] group@[i]).context.kind != UsageKind::Production by {
        assert(gv[i] == *group@[i]);
    }
    group[0].context.duplicate()
}

/// Whether some workspace crate depends directly on the package.
pub open spec fn is_direct(ext: ExternalsResult, pkg: Seq<char>) -> bool {
    exists|i: int| 0 <= i < ext.workspace_deps@.len() && (#[trigger] ext.workspace_deps@[i]).external_pkg_id@ == pkg
}

/// The node of an external crate.
pub open spec fn external_node(ext: ExternalsResult, i: int) -> Node {
    let c = ext.crates@[i];
    Node::ExternalCrate {
        name: c.name,
        version: c.version,
        package_id: c.package_id,
        is_direct_dependency: is_direct(ext, c.package_id@),
    }
}

/// `b` with the nodes of the first `k` external crates.
pub open spec fn with_external_nodes(b: Build, ext: ExternalsResult, k: int) -> Build {
    Build { nodes: b.nodes + Seq::new(k as nat, |i: int| external_node(ext, i)), ..b }
}

/// The node of each package id among the first `k` external crates, whose
/// nodes start at `base`: where an id occurs twice, the later node.
pub open spec fn package_nodes(ext: ExternalsResult, base: nat, k: int) -> Map<Seq<char>, usize>
    decreases k,
{
    if k <= 0 || k > ext.crates@.len() {
        Map::empty()
    } else {
        package_nodes(ext, base, k - 1).insert(ext.crates@[k - 1].package_id@, (base + k - 1) as usize)
    }
}

/// The context of an edge to an external crate: production where one of
/// the kinds is a normal dependency, a unit test otherwise.
pub open spec fn kinds_context(kinds: Seq<DependencyKind>) -> (UsageKind, Seq<String>) {
    if kinds.contains(DependencyKind::Normal) {
        (UsageKind::Production, Seq::empty())
    } else {
        (UsageKind::Test(TestKind::Unit), Seq::empty())
    }
}

/// The edges from workspace crates to external crates for the first `k`
/// direct dependencies: one where both the package and the crate have a node.
pub open spec fn workspace_ext_edges(b: Build, ext: ExternalsResult, pkgs: Map<Seq<char>, usize>, k: int) -> Seq<(usize, usize, EdgeView)>
    decreases k,
{
    if k <= 0 || k > ext.workspace_deps@.len() {
        Seq::empty()
    } else {
        let prev = workspace_ext_edges(b, ext, pkgs, k - 1);
        let d = ext.workspace_deps@[k - 1];
        if pkgs.dom().contains(d.external_pkg_id@) && b.crate_map.dom().contains(normalized(d.workspace_crate@)) {
            prev.push((
                b.crate_map[normalized(d.workspace_crate@)],
                pkgs[d.external_pkg_id@],
                EdgeView::CrateDep { context: kinds_context(d.dep_kinds@) },
            ))
        } else {
            prev
        }
    }
}

/// The edges between external crates for the first `k` of their
/// dependencies: one where both packages have a node.
pub open spec fn external_ext_edges(ext: ExternalsResult, pkgs: Map<Seq<char>, usize>, k: int) -> Seq<(usize, usize, EdgeView)>
    decreases k,
{
    if k <= 0 || k > ext.external_deps@.len() {
        Seq::empty()
    } else {
        let prev = external_ext_edges(ext, pkgs, k - 1);
        let d = ext.external_deps@[k - 1];
        if pkgs.dom().contains(d.from_pkg_id@) && pkgs.dom().contains(d.to_pkg_id@) {
            prev.push((pkgs[d.from_pkg_id@], pkgs[d.to_pkg_id@], EdgeView::CrateDep { context: kinds_context(d.dep_kinds@) }))
        } else {
            prev
        }
    }
}

/// The build after the external crates: their nodes, then the edges from
/// the workspace to them, then the edges between them.
pub open spec fn with_externals(b: Build, ext: ExternalsResult) -> Build {
    let n = ext.crates@.len() as int;
    let nb = with_external_nodes(b, ext, n);
    let pkgs = package_nodes(ext, b.nodes.len(), n);
    with_edges(nb, workspace_ext_edges(nb, ext, pkgs, ext.workspace_deps@.len() as int) + external_ext_edges(ext, pkgs, ext.external_deps@.len() as int))
}

/// Every package's node is one of the external crates' nodes.
pub proof fn lemma_package_nodes_bound(ext: ExternalsResult, base: nat, k: int)
    requires
        0 <= k <= ext.crates@.len(),
        base + k <= usize::MAX,
    ensures
        forall|p: Seq<char>| #[trigger] package_nodes(ext, base, k).dom().contains(p) ==> base <= package_nodes(ext, base, k)[p] < base + k,
    decreases k,
{
    if k > 0 {
        lemma_package_nodes_bound(ext, base, k - 1);
        let prev = package_nodes(ext, base, k - 1);
        let v = (base + k - 1) as usize;
        assert(v == base + k - 1);
        assert forall|p: Seq<char>| #[trigger] package_nodes(ext, base, k).dom().contains(p) implies base <= package_nodes(ext, base, k)[p] < base + k by {
            if p != ext.crates@[k - 1].package_id@ {
                assert(prev.dom().contains(p));
            }
        }
    }
}

/// More direct dependencies give no fewer edges.
pub proof fn lemma_workspace_ext_prefix(b: Build, ext: ExternalsResult, pkgs: Map<Seq<char>, usize>, k1: int, k2: int)
    requires
        0 <= k1 <= k2 <= ext.workspace_deps@.len(),
    ensures
        workspace_ext_edges(b, ext, pkgs, k2).len() >= workspace_ext_edges(b, ext, pkgs, k1).len(),
    decreases k2,
{
    if k1 < k2 {
        lemma_workspace_ext_prefix(b, ext, pkgs, k1, k2 - 1);
    }
}

/// More dependencies between external crates give no fewer edges.
pub proof fn lemma_external_ext_prefix(ext: ExternalsResult, pkgs: Map<Seq<char>, usize>, k1: int, k2: int)
    requires
        0 <= k1 <= k2 <= ext.external_deps@.len(),
    ensures
        external_ext_edges(ext, pkgs, k2).len() >= external_ext_edges(ext, pkgs, k1).len(),
    decreases k2,
{
    if k1 < k2 {
        lemma_external_ext_prefix(ext, pkgs, k1, k2 - 1);
    }
}

/// Whether some workspace crate depends directly on the package.
fn is_direct_dependency(ext: &ExternalsResult, pkg: &String) -> (res: bool)
    ensures
        res == is_direct(*ext, pkg@),
{
    let mut i: usize = 0;
    while i < ext.workspace_deps.len()
        invariant
            i <= ext.workspace_deps@.len(),
            forall|j: int| 0 <= j < i ==> (#[trigger] ext.workspace_deps@[j]).external_pkg_id@ != pkg@,
        decreases ext.workspace_deps.len() - i,
    {
        if str_eq(ext.workspace_deps[i].external_pkg_id.as_str(), pkg.as_str()) {
            return true;
        }
        i = i + 1;
    }
    false
}

/// The context of an edge to an external crate.
fn context_of_kinds(kinds: &Vec<DependencyKind>) -> (res: EdgeContext)
    ensures
        res@ == kinds_context(kinds@),
{
    let mut i: usize = 0;
    while i < kinds.len()
        invariant
            i <= kinds@.len(),
            forall|j: int| 0 <= j < i ==> kinds@[j] != DependencyKind::Normal,
        decreases kinds.len() - i,
    {
        match kinds[i] {
            DependencyKind::Normal => {
                assert(kinds@.contains(DependencyKind::Normal)) by {
                    assert(kinds@[i as int] == DependencyKind::Normal);
                }
                return EdgeContext::production();
            },
            _ => {},
        }
        i = i + 1;
    }
    EdgeContext::test(TestKind::Unit)
}

/// The graph of the crates, their module trees and the external crates,
/// as plain values: each phase in order, the stash emptied once the module
/// edges are made.
pub open spec fn built(crates: Seq<CrateInfo>, modules: Seq<ModuleTree>, externals: Option<ExternalsResult>, include_tests: bool) -> Build {
    let b0 = with_crates(crates, crates.len() as int);
    let b1 = with_trees(b0, modules, modules.len() as int);
    let b2 = with_crate_deps(b1, crates, include_tests, crates.len() as int);
    let b3 = Build { stash: Seq::empty(), ..with_module_deps(b2) };
    match externals {
        Some(e) => with_externals(b3, e),
        None => b3,
    }
}

/// The external crates, where given.
pub open spec fn given(externals: Option<&ExternalsResult>) -> Option<ExternalsResult> {
    match externals {
        Some(e) => Some(*e),
        None => None,
    }
}

/// Each crate's name maps to one of the crate nodes.
pub proof fn lemma_crates_valid(crates: Seq<CrateInfo>, k: int)
    ensures
        maps_valid(with_crates(crates, k)),
    decreases k,
{
    lemma_crates_grow(crates, k);
    if 0 < k <= crates.len() {
        lemma_crates_valid(crates, k - 1);
        lemma_crates_grow(crates, k - 1);
        let prev = with_crates(crates, k - 1);
        let cur = with_crates(crates, k);
        assert forall|q: Seq<char>| #[trigger] cur.crate_map.dom().contains(q) implies cur.crate_map[q] < cur.nodes.len() by {
            if q != normalized(crates[k - 1].name@) {
                assert(prev.crate_map.dom().contains(q));
            }
        }
    }
}

/// A group has a member wherever one of the dependencies points at its key.
pub proof fn lemma_group_nonempty(deps: Seq<DependencyRef>, key: Seq<char>, n: int, i: int)
    requires
        0 <= i < n <= deps.len(),
        module_target_of(deps[i]@) == key,
    ensures
        group_of(deps, key, n).len() > 0,
    decreases n,
{
    if i < n - 1 {
        lemma_group_nonempty(deps, key, n - 1, i);
    }
}

/// More target keys give no fewer edges.
pub proof fn lemma_keys_edges_prefix(b: Build, from: usize, deps: Seq<DependencyRef>, keys: Seq<Seq<char>>, k1: int, k2: int)
    requires
        0 <= k1 <= k2 <= keys.len(),
    ensures
        keys_edges(b, from, deps, keys, k2).len() >= keys_edges(b, from, deps, keys, k1).len(),
    decreases k2,
{
    if k1 < k2 {
        lemma_keys_edges_prefix(b, from, deps, keys, k1, k2 - 1);
    }
}

/// More stashed modules give no fewer edges.
pub proof fn lemma_stash_edges_prefix(b: Build, k1: int, k2: int)
    requires
        0 <= k1 <= k2 <= b.stash.len(),
    ensures
        stash_edges(b, k2).len() >= stash_edges(b, k1).len(),
    decreases k2,
{
    if k1 < k2 {
        lemma_stash_edges_prefix(b, k1, k2 - 1);
    }
}

/// The dependencies that point at `key`, in order.
fn collect_group<'d>(deps: &'d Vec<DependencyRef>, key: &String) -> (group: Vec<&'d DependencyRef>)
    ensures
        group_view(group@) == group_of(deps@, key@, deps@.len() as int),
{
    let mut group: Vec<&'d DependencyRef> = Vec::new();
    let mut k: usize = 0;
    while k < deps.len()
        invariant
            k <= deps@.len(),
            group_view(group@) == group_of(deps@, key@, k as int),
        decreases deps.len() - k,
    {
        let d = &deps[k];
        let t = d.module_target();
        let ghost before = group@;
        if str_eq(t.as_str(), key.as_str()) {
            group.push(d);
            assert(group_view(group@) =~= group_view(before).push(*d));
        }
        k = k + 1;
    }
    group
}

/// The graph, the maps and the stash under construction.
pub struct GraphBuilder<'a> {
    pub graph: ArcGraph,
    pub crate_map: StrMap<usize>,
    pub module_map: StrMap<usize>,
    pub module_deps: Vec<(&'a String, &'a Vec<DependencyRef>)>,
}

/// The largest number of nodes or edges petgraph's default index admits.
pub open spec fn index_limit() -> nat {
    4294967295
}

/// A module and its subtree only add nodes and edges.
pub proof fn lemma_module_grows(b: Build, m: ModuleInfo, crate_idx: usize, parent: usize)
    ensures
        with_module(b, m, crate_idx, parent).nodes.len() >= b.nodes.len() + 1,
        with_module(b, m, crate_idx, parent).edges.len() >= b.edges.len() + 1,
    decreases m, 1int,
{
    let idx = b.nodes.len() as usize;
    let b1 = Build {
        nodes: b.nodes.push(Node::Module { name: m.name, crate_idx }),
        edges: b.edges.push((parent, idx, EdgeView::Contains)),
        module_map: b.module_map.insert(m.full_path@, idx),
        ..b
    };
    let b2 = stashed(b1, m.full_path@, m.dependencies@);
    lemma_children_grow(b2, m.children@, crate_idx, idx, m.children@.len() as int);
}

/// Children only add nodes and edges.
pub proof fn lemma_children_grow(b: Build, children: Seq<ModuleInfo>, crate_idx: usize, parent: usize, k: int)
    ensures
        with_children(b, children, crate_idx, parent, k).nodes.len() >= b.nodes.len(),
        with_children(b, children, crate_idx, parent, k).edges.len() >= b.edges.len(),
    decreases children, k,
{
    if 0 < k <= children.len() {
        lemma_children_grow(b, children, crate_idx, parent, k - 1);
        lemma_module_grows(with_children(b, children, crate_idx, parent, k - 1), children[k - 1], crate_idx, parent);
    }
}

/// Trees only add nodes and edges.
pub proof fn lemma_trees_grow(b: Build, trees: Seq<ModuleTree>, k: int)
    ensures
        with_trees(b, trees, k).nodes.len() >= b.nodes.len(),
        with_trees(b, trees, k).edges.len() >= b.edges.len(),
    decreases k,
{
    if 0 < k <= trees.len() {
        lemma_trees_grow(b, trees, k - 1);
        let prev = with_trees(b, trees, k - 1);
        match resolve(prev, trees[k - 1].root.name@) {
            None => {},
            Some(ci) => {
                let t = trees[k - 1];
                let b1 = stashed(prev, t.root.name@, t.root.dependencies@);
                lemma_children_grow(b1, t.root.children@, ci, ci, t.root.children@.len() as int);
            },
        }
    }
}

/// Crate dependencies only add edges, and no node.
pub proof fn lemma_crate_deps_grow(b: Build, crates: Seq<CrateInfo>, include_tests: bool, k: int)
    ensures
        with_crate_deps(b, crates, include_tests, k).edges.len() >= b.edges.len(),
        with_crate_deps(b, crates, include_tests, k).nodes == b.nodes,
        with_crate_deps(b, crates, include_tests, k).crate_map == b.crate_map,
        with_crate_deps(b, crates, include_tests, k).module_map == b.module_map,
        with_crate_deps(b, crates, include_tests, k).stash == b.stash,
    decreases k,
{
    if 0 < k <= crates.len() {
        lemma_crate_deps_grow(b, crates, include_tests, k - 1);
    }
}

/// The crates' nodes only grow with more crates.
pub proof fn lemma_crates_grow(crates: Seq<CrateInfo>, k: int)
    ensures
        0 <= k <= crates.len() ==> with_crates(crates, k).nodes.len() == k,
        with_crates(crates, k).edges.len() == 0,
        with_crates(crates, k).stash.len() == 0,
        with_crates(crates, k).module_map == Map::<Seq<char>, usize>::empty(),
    decreases k,
{
    if 0 < k <= crates.len() {
        lemma_crates_grow(crates, k - 1);
    }
}

/// More children add no fewer nodes and edges.
pub proof fn lemma_children_prefix(b: Build, children: Seq<ModuleInfo>, crate_idx: usize, parent: usize, k1: int, k2: int)
    requires
        0 <= k1 <= k2 <= children.len(),
    ensures
        with_children(b, children, crate_idx, parent, k2).nodes.len() >= with_children(b, children, crate_idx, parent, k1).nodes.len(),
        with_children(b, children, crate_idx, parent, k2).edges.len() >= with_children(b, children, crate_idx, parent, k1).edges.len(),
    decreases k2,
{
    if k1 < k2 {
        lemma_children_prefix(b, children, crate_idx, parent, k1, k2 - 1);
        lemma_module_grows(with_children(b, children, crate_idx, parent, k2 - 1), children[k2 - 1], crate_idx, parent);
    }
}

/// More trees add no fewer nodes and edges.
pub proof fn lemma_trees_prefix(b: Build, trees: Seq<ModuleTree>, k1: int, k2: int)
    requires
        0 <= k1 <= k2 <= trees.len(),
    ensures
        with_trees(b, trees, k2).nodes.len() >= with_trees(b, trees, k1).nodes.len(),
        with_trees(b, trees, k2).edges.len() >= with_trees(b, trees, k1).edges.len(),
    decreases k2,
{
    if k1 < k2 {
        lemma_trees_prefix(b, trees, k1, k2 - 1);
        lemma_trees_grow(with_trees(b, trees, k2 - 1), trees.subrange(k2 - 1, k2), 1);
        let prev = with_trees(b, trees, k2 - 1);
        assert(with_trees(prev, trees.subrange(k2 - 1, k2), 1) == with_tree(with_trees(prev, trees.subrange(k2 - 1, k2), 0), trees[k2 - 1]));
    }
}

/// More crates add no fewer edges.
pub proof fn lemma_crate_deps_prefix(b: Build, crates: Seq<CrateInfo>, include_tests: bool, k1: int, k2: int)
    requires
        0 <= k1 <= k2 <= crates.len(),
    ensures
        with_crate_deps(b, crates, include_tests, k2).edges.len() >= with_crate_deps(b, crates, include_tests, k1).edges.len(),
    decreases k2,
{
    if k1 < k2 {
        lemma_crate_deps_prefix(b, crates, include_tests, k1, k2 - 1);
    }
}

/// Whether every node the maps name is a node of the build.
pub open spec fn maps_valid(b: Build) -> bool {
    &&& forall|k: Seq<char>| #[trigger] b.crate_map.dom().contains(k) ==> b.crate_map[k] < b.nodes.len()
    &&& forall|k: Seq<char>| #[trigger] b.module_map.dom().contains(k) ==> b.module_map[k] < b.nodes.len()
}

impl<'a> GraphBuilder<'a> {
    /// What has been built, as plain values.
    pub open spec fn build_view(&self) -> Build {
        Build {
            nodes: arc_nodes(self.graph.0),
            edges: edge_views(self.graph),
            crate_map: self.crate_map@,
            module_map: self.module_map@,
            stash: self.module_deps@.map_values(|e: (&String, &Vec<DependencyRef>)| ((*e.0)@, (*e.1)@)),
        }
    }

    /// A builder with nothing built.
    pub fn new() -> (res: Self)
        ensures
            res.build_view() == with_crates(Seq::<CrateInfo>::empty(), 0),
    {
        let res = GraphBuilder {
            graph: ArcGraph::new(),
            crate_map: StrMap::new(),
            module_map: StrMap::new(),
            module_deps: Vec::new(),
        };
        assert(res.build_view().edges =~= Seq::<(usize, usize, EdgeView)>::empty());
        assert(res.build_view().stash =~= Seq::<(Seq<char>, Seq<DependencyRef>)>::empty());
        assert(res.crate_map@ =~= Map::<Seq<char>, usize>::empty());
        assert(res.module_map@ =~= Map::<Seq<char>, usize>::empty());
        res
    }

    /// Add a node for every crate, and map each normalized name to it.
    pub fn add_crates(&mut self, crates: &[CrateInfo])
        requires
            old(self).build_view() == with_crates(Seq::<CrateInfo>::empty(), 0),
            crates@.len() < index_limit(),
        ensures
            final(self).build_view() == with_crates(crates@, crates@.len() as int),
    {
        let mut i: usize = 0;
        assert(with_crates(crates@, 0) == with_crates(Seq::<CrateInfo>::empty(), 0));
        while i < crates.len()
            invariant
                i <= crates@.len(),
                crates@.len() < index_limit(),
                self.build_view() == with_crates(crates@, i as int),
            decreases crates.len() - i,
        {
            proof {
                lemma_crates_grow(crates@, i as int);
            }
            let c = &crates[i];
            let ghost before = self.build_view();
            let ghost old_edges = arc_edges(self.graph.0);
            let idx = self.graph.add_node(Node::Crate { name: c.name.clone(), path: c.path.clone() });
            self.crate_map.insert(normalize_crate_name(c.name.as_str()), idx);
            proof {
                assert(arc_edges(self.graph.0) == old_edges);
                assert(edge_views(self.graph) == before.edges);
                assert(self.build_view() =~= with_crates(crates@, i + 1));
            }
            i = i + 1;
        }
    }

    /// The node a name resolves to: a module by its path, else a crate by
    /// its normalized name.
    fn resolve_node(&self, name: &str) -> (res: Option<usize>)
        ensures
            res == resolve(self.build_view(), name@),
    {
        match self.module_map.get(name) {
            Some(i) => Some(*i),
            None => match self.crate_map.get(normalize_crate_name(name).as_str()) {
                Some(i) => Some(*i),
                None => None,
            },
        }
    }

    /// Add module `m` of crate `crate_idx` under `parent`, and its subtree.
    fn add_module(&mut self, m: &'a ModuleInfo, crate_idx: usize, parent: usize)
        requires
            parent < old(self).build_view().nodes.len(),
            maps_valid(old(self).build_view()),
            with_module(old(self).build_view(), *m, crate_idx, parent).nodes.len() < index_limit(),
            with_module(old(self).build_view(), *m, crate_idx, parent).edges.len() < index_limit(),
        ensures
            final(self).build_view() == with_module(old(self).build_view(), *m, crate_idx, parent),
            maps_valid(final(self).build_view()),
        decreases m, 1int,
    {
        let ghost b = self.build_view();
        let ghost idx = b.nodes.len() as usize;
        let ghost b1 = Build {
            nodes: b.nodes.push(Node::Module { name: m.name, crate_idx }),
            edges: b.edges.push((parent, idx, EdgeView::Contains)),
            module_map: b.module_map.insert(m.full_path@, idx),
            ..b
        };
        let ghost b2 = stashed(b1, m.full_path@, m.dependencies@);
        proof {
            lemma_children_grow(b2, m.children@, crate_idx, idx, m.children@.len() as int);
        }
        let ghost old_edges = arc_edges(self.graph.0);
        let module_idx = self.graph.add_node(Node::Module { name: m.name.clone(), crate_idx });
        self.graph.add_edge(parent, module_idx, Edge::Contains);
        self.module_map.insert(m.full_path.clone(), module_idx);
        proof {
            assert(arc_edges(self.graph.0) == old_edges.push((parent, module_idx, Edge::Contains)));
            assert(edge_views(self.graph) =~= b.edges.push((parent, idx, EdgeView::Contains)));
        }
        if m.dependencies.len() > 0 {
            let ghost old_stash = self.module_deps@;
            self.module_deps.push((&m.full_path, &m.dependencies));
            proof {
                assert(self.module_deps@ == old_stash.push((&m.full_path, &m.dependencies)));
                assert(self.build_view().stash =~= b.stash.push((m.full_path@, m.dependencies@)));
            }
        }
        assert(self.build_view() =~= b2);
        self.add_children(&m.children, crate_idx, module_idx);
    }

    /// Add each of `children` under `parent`, with its subtree.
    fn add_children(&mut self, children: &'a Vec<ModuleInfo>, crate_idx: usize, parent: usize)
        requires
            parent < old(self).build_view().nodes.len(),
            maps_valid(old(self).build_view()),
            with_children(old(self).build_view(), children@, crate_idx, parent, children@.len() as int).nodes.len()
                < index_limit(),
            with_children(old(self).build_view(), children@, crate_idx, parent, children@.len() as int).edges.len()
                < index_limit(),
        ensures
            final(self).build_view() == with_children(old(self).build_view(), children@, crate_idx, parent, children@.len() as int),
            maps_valid(final(self).build_view()),
        decreases children@, 0int,
    {
        let ghost b = self.build_view();
        let mut k: usize = 0;
        while k < children.len()
            invariant
                k <= children@.len(),
                parent < b.nodes.len(),
                b.nodes.len() <= self.build_view().nodes.len(),
                maps_valid(self.build_view()),
                self.build_view() == with_children(b, children@, crate_idx, parent, k as int),
                with_children(b, children@, crate_idx, parent, children@.len() as int).nodes.len() < index_limit(),
                with_children(b, children@, crate_idx, parent, children@.len() as int).edges.len() < index_limit(),
            decreases children.len() - k,
        {
            proof {
                lemma_children_prefix(b, children@, crate_idx, parent, k + 1, children@.len() as int);
                lemma_module_grows(with_children(b, children@, crate_idx, parent, k as int), children@[k as int], crate_idx, parent);
            }
            self.add_module(&children[k], crate_idx, parent);
            k = k + 1;
        }
    }

    /// Add every module tree whose root names a node: its dependencies
    /// stashed, its modules under the root's node.
    pub fn add_modules(&mut self, modules: &'a [ModuleTree])
        requires
            maps_valid(old(self).build_view()),
            with_trees(old(self).build_view(), modules@, modules@.len() as int).nodes.len() < index_limit(),
            with_trees(old(self).build_view(), modules@, modules@.len() as int).edges.len() < index_limit(),
        ensures
            final(self).build_view() == with_trees(old(self).build_view(), modules@, modules@.len() as int),
            maps_valid(final(self).build_view()),
    {
        let ghost b = self.build_view();
        let mut i: usize = 0;
        while i < modules.len()
            invariant
                i <= modules@.len(),
                maps_valid(self.build_view()),
                self.build_view() == with_trees(b, modules@, i as int),
                with_trees(b, modules@, modules@.len() as int).nodes.len() < index_limit(),
                with_trees(b, modules@, modules@.len() as int).edges.len() < index_limit(),
            decreases modules.len() - i,
        {
            proof {
                lemma_trees_prefix(b, modules@, i + 1, modules@.len() as int);
            }
            let t = &modules[i];
            let ghost cur = self.build_view();
            match self.resolve_node(t.root.name.as_str()) {
                None => {},
                Some(crate_idx) => {
                    if t.root.dependencies.len() > 0 {
                        let ghost old_stash = self.module_deps@;
                        self.module_deps.push((&t.root.name, &t.root.dependencies));
                        proof {
                            assert(self.module_deps@ == old_stash.push((&t.root.name, &t.root.dependencies)));
                            assert(self.build_view().stash =~= cur.stash.push((t.root.name@, t.root.dependencies@)));
                        }
                    }
                    assert(self.build_view() =~= stashed(cur, t.root.name@, t.root.dependencies@));
                    proof {
                        if cur.module_map.dom().contains(t.root.name@) {
                        } else {
                        }
                    }
                    self.add_children(&t.root.children, crate_idx, crate_idx);
                },
            }
            i = i + 1;
        }
    }

    /// Add the crate dependency edges: each crate's dependencies in
    /// production, then its dev-dependencies, as test edges where tests are
    /// included and as hidden `DevDep` edges otherwise.
    pub fn add_crate_deps(&mut self, crates: &[CrateInfo], include_tests: bool)
        requires
            maps_valid(old(self).build_view()),
            with_crate_deps(old(self).build_view(), crates@, include_tests, crates@.len() as int).edges.len() < index_limit(),
        ensures
            final(self).build_view() == with_crate_deps(old(self).build_view(), crates@, include_tests, crates@.len() as int),
            maps_valid(final(self).build_view()),
    {
        let ghost b = self.build_view();
        let mut i: usize = 0;
        while i < crates.len()
            invariant
                i <= crates@.len(),
                maps_valid(self.build_view()),
                self.build_view() == with_crate_deps(b, crates@, include_tests, i as int),
                with_crate_deps(b, crates@, include_tests, crates@.len() as int).edges.len() < index_limit(),
            decreases crates.len() - i,
        {
            proof {
                lemma_crate_deps_prefix(b, crates@, include_tests, i + 1, crates@.len() as int);
                lemma_crate_deps_grow(b, crates@, include_tests, i as int);
            }
            let c = &crates[i];
            let ghost cur = self.build_view();
            match self.crate_map.get(normalize_crate_name(c.name.as_str()).as_str()) {
                None => {
                    assert(self.build_view() =~= with_crate_deps(b, crates@, include_tests, i + 1));
                },
                Some(from_ref) => {
                    let from = *from_ref;
                    let ghost all = crate_dep_edges(cur, *c, include_tests);
                    let ghost prod_edges = dep_edges(
                        cur,
                        from,
                        c.dependencies@,
                        EdgeView::CrateDep { context: (UsageKind::Production, Seq::empty()) },
                        c.dependencies@.len() as int,
                    );
                    let mut j: usize = 0;
                    while j < c.dependencies.len()
                        invariant
                            j <= c.dependencies@.len(),
                            from < cur.nodes.len(),
                            maps_valid(cur),
                            self.build_view() == with_edges(
                                cur,
                                dep_edges(
                                    cur,
                                    from,
                                    c.dependencies@,
                                    EdgeView::CrateDep { context: (UsageKind::Production, Seq::empty()) },
                                    j as int,
                                ),
                            ),
                            (cur.edges + all).len() < index_limit(),
                            all == prod_edges + dep_edges(cur, from, c.dev_dependencies@, dev_edge(include_tests), c.dev_dependencies@.len() as int),
                            prod_edges == dep_edges(
                                cur,
                                from,
                                c.dependencies@,
                                EdgeView::CrateDep { context: (UsageKind::Production, Seq::empty()) },
                                c.dependencies@.len() as int,
                            ),
                        decreases c.dependencies.len() - j,
                    {
                        proof {
                            lemma_dep_edges_prefix(cur, from, c.dependencies@, EdgeView::CrateDep { context: (UsageKind::Production, Seq::empty()) }, j + 1, c.dependencies@.len() as int);
                        }
                        match self.crate_map.get(normalize_crate_name(c.dependencies[j].as_str()).as_str()) {
                            Some(to_ref) => {
                                let to = *to_ref;
                                let ghost old_edges = arc_edges(self.graph.0);
                                let edge = Edge::CrateDep { context: EdgeContext::production() };
                                proof {
                                    let pe = EdgeView::CrateDep { context: (UsageKind::Production, Seq::empty()) };
                                    assert(dep_edges(cur, from, c.dependencies@, pe, j + 1) == dep_edges(cur, from, c.dependencies@, pe, j as int).push((from, to, pe)));
                                    assert(self.graph.edge_seq().len() == self.build_view().edges.len());
                                    assert(prod_edges == dep_edges(cur, from, c.dependencies@, pe, c.dependencies@.len() as int));
                                    assert(prod_edges.len() >= dep_edges(cur, from, c.dependencies@, pe, j + 1).len());
                                    assert(all.len() >= prod_edges.len());
                                }
                                self.graph.add_edge(from, to, edge);
                                proof {
                                    assert(arc_edges(self.graph.0) == old_edges.push((from, to, edge)));
                                    assert(edge_views(self.graph) =~= edge_views_of(old_edges).push((from, to, EdgeView::CrateDep { context: (UsageKind::Production, Seq::empty()) })));
                                }
                            },
                            None => {},
                        }
                        j = j + 1;
                        assert(self.build_view() =~= with_edges(
                            cur,
                            dep_edges(
                                cur,
                                from,
                                c.dependencies@,
                                EdgeView::CrateDep { context: (UsageKind::Production, Seq::empty()) },
                                j as int,
                            ),
                        ));
                    }
                    let mut j: usize = 0;
                    while j < c.dev_dependencies.len()
                        invariant
                            j <= c.dev_dependencies@.len(),
                            from < cur.nodes.len(),
                            maps_valid(cur),
                            self.build_view() == with_edges(
                                cur,
                                prod_edges + dep_edges(cur, from, c.dev_dependencies@, dev_edge(include_tests), j as int),
                            ),
                            (cur.edges + all).len() < index_limit(),
                            all == prod_edges + dep_edges(cur, from, c.dev_dependencies@, dev_edge(include_tests), c.dev_dependencies@.len() as int),
                        decreases c.dev_dependencies.len() - j,
                    {
                        proof {
                            lemma_dep_edges_prefix(cur, from, c.dev_dependencies@, dev_edge(include_tests), j + 1, c.dev_dependencies@.len() as int);
                        }
                        match self.crate_map.get(normalize_crate_name(c.dev_dependencies[j].as_str()).as_str()) {
                            Some(to_ref) => {
                                let to = *to_ref;
                                let edge = if include_tests {
                                    Edge::CrateDep { context: EdgeContext::test(TestKind::Unit) }
                                } else {
                                    Edge::DevDep
                                };
                                assert(edge_view(edge) == dev_edge(include_tests));
                                let ghost old_edges = arc_edges(self.graph.0);
                                proof {
                                    assert(dep_edges(cur, from, c.dev_dependencies@, dev_edge(include_tests), j + 1) == dep_edges(cur, from, c.dev_dependencies@, dev_edge(include_tests), j as int).push((from, to, dev_edge(include_tests))));
                                    assert(self.graph.edge_seq().len() == self.build_view().edges.len());
                                }
                                self.graph.add_edge(from, to, edge);
                                proof {
                                    assert(arc_edges(self.graph.0) == old_edges.push((from, to, edge)));
                                    assert(edge_views(self.graph) =~= edge_views_of(old_edges).push((from, to, dev_edge(include_tests))));
                                }
                            },
                            None => {},
                        }
                        j = j + 1;
                        assert(self.build_view() =~= with_edges(
                            cur,
                            prod_edges + dep_edges(cur, from, c.dev_dependencies@, dev_edge(include_tests), j as int),
                        ));
                    }
                    assert(self.build_view() =~= with_crate_deps(b, crates@, include_tests, i + 1));
                },
            }
            i = i + 1;
        }
    }

    /// Add the module dependency edges: for each stashed module that names a
    /// node, one edge per target that names another node, targets in name
    /// order, with the locations and context of the dependencies on it. The
    /// stash is emptied.
    pub fn add_module_deps(&mut self)
        requires
            maps_valid(old(self).build_view()),
            with_module_deps(old(self).build_view()).edges.len() < index_limit(),
        ensures
            final(self).build_view() == (Build { stash: Seq::empty(), ..with_module_deps(old(self).build_view()) }),
            maps_valid(final(self).build_view()),
    {
        let ghost b = self.build_view();
        let n = self.module_deps.len();
        let mut k: usize = 0;
        while k < n
            invariant
                k <= n,
                n == self.module_deps@.len(),
                b.stash.len() == n,
                maps_valid(b),
                self.build_view() == with_edges(b, stash_edges(b, k as int)),
                (b.edges + stash_edges(b, n as int)).len() < index_limit(),
                b.stash == self.module_deps@.map_values(|e: (&String, &Vec<DependencyRef>)| ((*e.0)@, (*e.1)@)),
            decreases n - k,
        {
            proof {
                lemma_stash_edges_prefix(b, k + 1, n as int);
            }
            let (path, deps) = self.module_deps[k];
            assert(b.stash[k as int] == (path@, deps@));
            let ghost cur = self.build_view();
            let ghost all = entry_edges(b, path@, deps@);
            assert(stash_edges(b, k + 1) == stash_edges(b, k as int) + all);
            match self.resolve_node(path.as_str()) {
                None => {
                    assert(all =~= Seq::<(usize, usize, EdgeView)>::empty());
                },
                Some(from) => {
                    let mut keys: Vec<String> = Vec::new();
                    let mut j: usize = 0;
                    assert(keys@.map_values(|x: String| x@) =~= Seq::<Seq<char>>::empty());
                    while j < deps.len()
                        invariant
                            j <= deps@.len(),
                            strictly_sorted(keys@.map_values(|x: String| x@)),
                            keys@.map_values(|x: String| x@).to_set() == deps@.take(j as int).map_values(
                                |d: DependencyRef| module_target_of(d@),
                            ).to_set(),
                        decreases deps.len() - j,
                    {
                        insert_sorted(&mut keys, deps[j].module_target());
                        proof {
                            let prev = deps@.take(j as int).map_values(|d: DependencyRef| module_target_of(d@));
                            let next = deps@.take(j + 1).map_values(|d: DependencyRef| module_target_of(d@));
                            assert(next =~= prev.push(module_target_of(deps@[j as int]@)));
                            prev.lemma_push_to_set_commute(module_target_of(deps@[j as int]@));
                        }
                        j = j + 1;
                    }
                    let ghost kv = keys@.map_values(|x: String| x@);
                    proof {
                        assert(deps@.take(deps@.len() as int) =~= deps@);
                        lemma_sorted_of(kv, targets(deps@));
                        assert(all == keys_edges(b, from, deps@, kv, kv.len() as int));
                    }
                    let mut q: usize = 0;
                    while q < keys.len()
                        invariant
                            q <= kv.len(),
                            kv == keys@.map_values(|x: String| x@),
                            kv.to_set() == targets(deps@),
                            from < b.nodes.len(),
                            maps_valid(b),
                            b.nodes == cur.nodes,
                            b.crate_map == self.build_view().crate_map,
                            b.module_map == self.build_view().module_map,
                            self.build_view() == with_edges(cur, keys_edges(b, from, deps@, kv, q as int)),
                            cur == with_edges(b, stash_edges(b, k as int)),
                            all == keys_edges(b, from, deps@, kv, kv.len() as int),
                            (cur.edges + all).len() < index_limit(),
                        decreases keys.len() - q,
                    {
                        proof {
                            lemma_keys_edges_prefix(b, from, deps@, kv, q + 1, kv.len() as int);
                        }
                        let key = &keys[q];
                        assert(kv[q as int] == key@);
                        let ghost prev = keys_edges(b, from, deps@, kv, q as int);
                        match self.resolve_node(key.as_str()) {
                            Some(to) => {
                                if to != from {
                                    let group = collect_group(deps, key);
                                    proof {
                                        assert(kv.to_set().contains(key@));
                                        let tv = deps@.map_values(|d: DependencyRef| module_target_of(d@));
                                        assert(tv.to_set().contains(key@));
                                        let m = choose|m: int| 0 <= m < tv.len() && tv[m] == key@;
                                        assert(module_target_of(deps@[m]@) == key@);
                                        lemma_group_nonempty(deps@, key@, deps@.len() as int, m);
                                    }
                                    let context = aggregate_context(&group);
                                    let locations = build_source_locations(&group, key);
                                    let edge = Edge::ModuleDep { locations, context };
                                    let ghost ev = EdgeView::ModuleDep {
                                        locations: locations_of(group_of(deps@, key@, deps@.len() as int), key@),
                                        context: aggregate(group_of(deps@, key@, deps@.len() as int)),
                                    };
                                    assert(edge_view(edge) == ev);
                                    let ghost old_edges = arc_edges(self.graph.0);
                                    assert(self.graph.edge_seq().len() == self.build_view().edges.len());
                                    self.graph.add_edge(from, to, edge);
                                    proof {
                                        assert(arc_edges(self.graph.0) == old_edges.push((from, to, edge)));
                                        assert(edge_views(self.graph) =~= edge_views_of(old_edges).push((from, to, ev)));
                                        assert(keys_edges(b, from, deps@, kv, q + 1) == prev.push((from, to, ev)));
                                    }
                                } else {
                                    assert(keys_edges(b, from, deps@, kv, q + 1) == prev);
                                }
                            },
                            None => {
                                assert(keys_edges(b, from, deps@, kv, q + 1) == prev);
                            },
                        }
                        q = q + 1;
                        assert(self.build_view() =~= with_edges(cur, keys_edges(b, from, deps@, kv, q as int)));
                    }
                    assert(self.build_view().edges == cur.edges + all);
                },
            }
            assert(b.edges + stash_edges(b, k + 1) =~= (b.edges + stash_edges(b, k as int)) + all);
            assert(self.build_view().edges == b.edges + stash_edges(b, k + 1));
            k = k + 1;
            assert(self.build_view() =~= with_edges(b, stash_edges(b, k as int)));
        }
        self.module_deps = Vec::new();
        assert(self.build_view().stash =~= Seq::<(Seq<char>, Seq<DependencyRef>)>::empty());
        assert(self.build_view() =~= (Build { stash: Seq::empty(), ..with_module_deps(b) }));
    }

    /// Add the external crates: a node for each, marked direct where a
    /// workspace crate depends on its package; then an edge from each
    /// workspace crate to the packages it depends on, and one between
    /// external crates for each of their dependencies, where both ends
    /// have a node. A package id that occurs twice resolves to its later node.
    pub fn add_externals(&mut self, ext: &ExternalsResult)
        requires
            maps_valid(old(self).build_view()),
            with_externals(old(self).build_view(), *ext).nodes.len() < index_limit(),
            with_externals(old(self).build_view(), *ext).edges.len() < index_limit(),
        ensures
            final(self).build_view() == with_externals(old(self).build_view(), *ext),
            maps_valid(final(self).build_view()),
    {
        let ghost b = self.build_view();
        let ghost n = ext.crates@.len() as int;
        let mut pkgs: StrMap<usize> = StrMap::new();
        let mut i: usize = 0;
        assert(with_external_nodes(b, *ext, 0) =~= b);
        while i < ext.crates.len()
            invariant
                i <= n,
                n == ext.crates@.len(),
                self.build_view() == with_external_nodes(b, *ext, i as int),
                pkgs@ == package_nodes(*ext, b.nodes.len(), i as int),
                b.nodes.len() + n < index_limit(),
            decreases ext.crates.len() - i,
        {
            let c = &ext.crates[i];
            let direct = is_direct_dependency(ext, &c.package_id);
            let ghost before = self.build_view();
            let ghost old_edges = arc_edges(self.graph.0);
            let node = Node::ExternalCrate {
                name: c.name.clone(),
                version: c.version.clone(),
                package_id: c.package_id.clone(),
                is_direct_dependency: direct,
            };
            assert(node == external_node(*ext, i as int));
            let idx = self.graph.add_node(node);
            pkgs.insert(c.package_id.clone(), idx);
            proof {
                assert(arc_edges(self.graph.0) == old_edges);
                assert(edge_views(self.graph) == before.edges);
                assert(Seq::new((i + 1) as nat, |j: int| external_node(*ext, j)) =~= Seq::new(i as nat, |j: int| external_node(*ext, j)).push(external_node(*ext, i as int)));
                assert(self.build_view() =~= with_external_nodes(b, *ext, i + 1));
            }
            i = i + 1;
        }
        let ghost nb = self.build_view();
        let ghost pv = pkgs@;
        let ghost ws_all = workspace_ext_edges(nb, *ext, pv, ext.workspace_deps@.len() as int);
        let ghost ext_all = external_ext_edges(*ext, pv, ext.external_deps@.len() as int);
        proof {
            lemma_package_nodes_bound(*ext, b.nodes.len(), n);
            assert(nb.nodes.len() == b.nodes.len() + n);
        }
        let mut j: usize = 0;
        assert(self.build_view() =~= with_edges(nb, workspace_ext_edges(nb, *ext, pv, 0)));
        while j < ext.workspace_deps.len()
            invariant
                j <= ext.workspace_deps@.len(),
                pkgs@ == pv,
                maps_valid(nb),
                forall|p: Seq<char>| #[trigger] pv.dom().contains(p) ==> pv[p] < nb.nodes.len(),
                self.build_view() == with_edges(nb, workspace_ext_edges(nb, *ext, pv, j as int)),
                (nb.edges + ws_all + ext_all).len() < index_limit(),
                ws_all == workspace_ext_edges(nb, *ext, pv, ext.workspace_deps@.len() as int),
            decreases ext.workspace_deps.len() - j,
        {
            proof {
                lemma_workspace_ext_prefix(nb, *ext, pv, j + 1, ext.workspace_deps@.len() as int);
            }
            let d = &ext.workspace_deps[j];
            let ghost prev = workspace_ext_edges(nb, *ext, pv, j as int);
            match pkgs.get(d.external_pkg_id.as_str()) {
                None => {
                    assert(workspace_ext_edges(nb, *ext, pv, j + 1) == prev);
                },
                Some(ext_ref) => {
                    let ext_idx = *ext_ref;
                    match self.crate_map.get(normalize_crate_name(d.workspace_crate.as_str()).as_str()) {
                        None => {
                            assert(workspace_ext_edges(nb, *ext, pv, j + 1) == prev);
                        },
                        Some(ws_ref) => {
                            let ws_idx = *ws_ref;
                            let context = context_of_kinds(&d.dep_kinds);
                            let edge = Edge::CrateDep { context };
                            let ghost ev = EdgeView::CrateDep { context: kinds_context(d.dep_kinds@) };
                            assert(edge_view(edge) == ev);
                            let ghost old_edges = arc_edges(self.graph.0);
                            assert(self.graph.edge_seq().len() == self.build_view().edges.len());
                            assert(workspace_ext_edges(nb, *ext, pv, j + 1) == prev.push((ws_idx, ext_idx, ev)));
                            self.graph.add_edge(ws_idx, ext_idx, edge);
                            proof {
                                assert(arc_edges(self.graph.0) == old_edges.push((ws_idx, ext_idx, edge)));
                                assert(edge_views(self.graph) =~= edge_views_of(old_edges).push((ws_idx, ext_idx, ev)));
                            }
                        },
                    }
                },
            }
            j = j + 1;
            assert(self.build_view() =~= with_edges(nb, workspace_ext_edges(nb, *ext, pv, j as int)));
        }
        let mut j: usize = 0;
        assert(self.build_view() =~= with_edges(nb, ws_all + external_ext_edges(*ext, pv, 0)));
        while j < ext.external_deps.len()
            invariant
                j <= ext.external_deps@.len(),
                pkgs@ == pv,
                maps_valid(nb),
                forall|p: Seq<char>| #[trigger] pv.dom().contains(p) ==> pv[p] < nb.nodes.len(),
                self.build_view() == with_edges(nb, ws_all + external_ext_edges(*ext, pv, j as int)),
                (nb.edges + ws_all + ext_all).len() < index_limit(),
                ext_all == external_ext_edges(*ext, pv, ext.external_deps@.len() as int),
            decreases ext.external_deps.len() - j,
        {
            proof {
                lemma_external_ext_prefix(*ext, pv, j + 1, ext.external_deps@.len() as int);
            }
            let d = &ext.external_deps[j];
            let ghost prev = external_ext_edges(*ext, pv, j as int);
            match (pkgs.get(d.from_pkg_id.as_str()), pkgs.get(d.to_pkg_id.as_str())) {
                (Some(from_ref), Some(to_ref)) => {
                    let from = *from_ref;
                    let to = *to_ref;
                    let context = context_of_kinds(&d.dep_kinds);
                    let edge = Edge::CrateDep { context };
                    let ghost ev = EdgeView::CrateDep { context: kinds_context(d.dep_kinds@) };
                    assert(edge_view(edge) == ev);
                    let ghost old_edges = arc_edges(self.graph.0);
                    assert(self.graph.edge_seq().len() == self.build_view().edges.len());
                    assert(external_ext_edges(*ext, pv, j + 1) == prev.push((from, to, ev)));
                    self.graph.add_edge(from, to, edge);
                    proof {
                        assert(arc_edges(self.graph.0) == old_edges.push((from, to, edge)));
                        assert(edge_views(self.graph) =~= edge_views_of(old_edges).push((from, to, ev)));
                    }
                },
                _ => {
                    assert(external_ext_edges(*ext, pv, j + 1) == prev);
                },
            }
            j = j + 1;
            assert(self.build_view() =~= with_edges(nb, ws_all + external_ext_edges(*ext, pv, j as int)));
        }
        assert(self.build_view() =~= with_externals(b, *ext));
    }
}

impl ArcGraph {
    /// Build the graph of the crates, their module trees and, where given,
    /// the external crates. With `include_tests` a dev-dependency becomes a
    /// test edge, else the hidden `DevDep`.
    pub fn build(crates: &[CrateInfo], modules: &[ModuleTree], externals: Option<&ExternalsResult>, include_tests: bool) -> (res: ArcGraph)
        requires
            built(crates@, modules@, given(externals), include_tests).nodes.len() < index_limit(),
            built(crates@, modules@, given(externals), include_tests).edges.len() < index_limit(),
        ensures
            res.nodes() == built(crates@, modules@, given(externals), include_tests).nodes,
            edge_views(res) == built(crates@, modules@, given(externals), include_tests).edges,
    {
        let ghost b0 = with_crates(crates@, crates@.len() as int);
        let ghost b1 = with_trees(b0, modules@, modules@.len() as int);
        let ghost b2 = with_crate_deps(b1, crates@, include_tests, crates@.len() as int);
        let ghost b3 = Build { stash: Seq::empty(), ..with_module_deps(b2) };
        proof {
            lemma_crates_grow(crates@, crates@.len() as int);
            lemma_crates_valid(crates@, crates@.len() as int);
            lemma_trees_grow(b0, modules@, modules@.len() as int);
            lemma_crate_deps_grow(b1, crates@, include_tests, crates@.len() as int);
            match externals {
                Some(e) => {
                    assert(with_externals(b3, *e).nodes.len() >= b3.nodes.len());
                    assert(with_externals(b3, *e).edges.len() >= b3.edges.len());
                },
                None => {},
            }
        }
        let mut builder = GraphBuilder::new();
        builder.add_crates(crates);
        builder.add_modules(modules);
        builder.add_crate_deps(crates, include_tests);
        builder.add_module_deps();
        match externals {
            Some(ext) => builder.add_externals(ext),
            None => {},
        }
        builder.graph
    }
}

} // verus!
