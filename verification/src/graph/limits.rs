//! How large the workspace graph can grow, counted from its inputs, and a
//! build that refuses inputs whose count reaches petgraph's `u32` indices.
//!
//! Every module under a crate's root adds one node and one `Contains` edge,
//! every crate and external crate one node, and every dependency written
//! down at most one edge; so counting every module, roots included, bounds
//! the graph that `ArcGraph::build` makes.

use vstd::prelude::*;

use crate::analyze::externals::ExternalsResult;
use crate::graph::builder::{
    built, crate_dep_edges, dep_edges, edge_views, entry_edges, external_ext_edges, given,
    index_limit, keys_edges, lemma_crate_deps_grow, lemma_crates_grow, resolve, stash_edges,
    stashed, targets, with_children, with_crate_deps, with_crates, with_external_nodes,
    with_externals, with_module, with_module_deps, with_trees, workspace_ext_edges, Build,
    EdgeView,
};
use crate::graph::nesting::lemma_built_containment_acyclic;
use crate::graph::{containment_acyclic, ArcGraph};
use crate::model::{CrateInfo, DependencyRef, ModuleInfo, ModuleTree};
use crate::sorting::{lemma_sorted_exists, sorted_of};

verus! {

/// The modules of a subtree, its root included.
pub open spec fn module_count(m: ModuleInfo) -> nat
    decreases m, 1int,
{
    1 + children_count(m.children@, m.children@.len() as int)
}

/// The modules of the first `k` subtrees.
pub open spec fn children_count(children: Seq<ModuleInfo>, k: int) -> nat
    decreases children, k,
{
    if k <= 0 || k > children.len() {
        0
    } else {
        children_count(children, k - 1) + module_count(children[k - 1])
    }
}

/// The dependencies written in a subtree.
pub open spec fn dep_count(m: ModuleInfo) -> nat
    decreases m, 1int,
{
    m.dependencies@.len() + children_deps(m.children@, m.children@.len() as int)
}

/// The dependencies written in the first `k` subtrees.
pub open spec fn children_deps(children: Seq<ModuleInfo>, k: int) -> nat
    decreases children, k,
{
    if k <= 0 || k > children.len() {
        0
    } else {
        children_deps(children, k - 1) + dep_count(children[k - 1])
    }
}

/// The modules of the first `k` trees.
pub open spec fn trees_count(trees: Seq<ModuleTree>, k: int) -> nat
    decreases k,
{
    if k <= 0 || k > trees.len() {
        0
    } else {
        trees_count(trees, k - 1) + module_count(trees[k - 1].root)
    }
}

/// The dependencies written in the first `k` trees.
pub open spec fn trees_deps(trees: Seq<ModuleTree>, k: int) -> nat
    decreases k,
{
    if k <= 0 || k > trees.len() {
        0
    } else {
        trees_deps(trees, k - 1) + dep_count(trees[k - 1].root)
    }
}

/// The dependency names of the first `k` crates, dev-dependencies included.
pub open spec fn crates_deps(crates: Seq<CrateInfo>, k: int) -> nat
    decreases k,
{
    if k <= 0 || k > crates.len() {
        0
    } else {
        crates_deps(crates, k - 1) + crates[k - 1].dependencies@.len() + crates[k - 1].dev_dependencies@.len()
    }
}

/// The dependencies of the first `k` stashed modules.
pub open spec fn stash_deps(stash: Seq<(Seq<char>, Seq<DependencyRef>)>, k: int) -> nat
    decreases k,
{
    if k <= 0 || k > stash.len() {
        0
    } else {
        stash_deps(stash, k - 1) + stash[k - 1].1.len()
    }
}

/// The dependencies of every stashed module.
pub open spec fn stash_total(b: Build) -> nat {
    stash_deps(b.stash, b.stash.len() as int)
}

/// The nodes the graph can have: the crates, every module and the external
/// crates.
pub open spec fn node_bound(crates: Seq<CrateInfo>, modules: Seq<ModuleTree>, externals: Option<ExternalsResult>) -> nat {
    crates.len() + trees_count(modules, modules.len() as int) + match externals {
        Some(e) => e.crates@.len(),
        None => 0,
    }
}

/// The edges the graph can have: one per module, per crate dependency name,
/// per module dependency and per external link.
pub open spec fn edge_bound(crates: Seq<CrateInfo>, modules: Seq<ModuleTree>, externals: Option<ExternalsResult>) -> nat {
    trees_count(modules, modules.len() as int) + crates_deps(crates, crates.len() as int)
        + trees_deps(modules, modules.len() as int) + match externals {
        Some(e) => e.workspace_deps@.len() + e.external_deps@.len(),
        None => 0,
    }
}

/// A count, or the limit where it reaches it.
pub open spec fn capped(x: nat) -> nat {
    if x < index_limit() {
        x
    } else {
        index_limit()
    }
}

/// Stashing a module adds its dependencies to the stash's count.
proof fn lemma_stashed(b: Build, path: Seq<char>, deps: Seq<DependencyRef>)
    ensures
        stash_total(stashed(b, path, deps)) == stash_total(b) + deps.len(),
        stashed(b, path, deps).nodes == b.nodes,
        stashed(b, path, deps).edges == b.edges,
{
    if deps.len() > 0 {
        let s = b.stash.push((path, deps));
        lemma_stash_prefix(b.stash, s, b.stash.len() as int);
    }
}

/// The count of a stash's first `k` entries reads only those entries.
proof fn lemma_stash_prefix(s: Seq<(Seq<char>, Seq<DependencyRef>)>, t: Seq<(Seq<char>, Seq<DependencyRef>)>, k: int)
    requires
        0 <= k <= s.len(),
        k <= t.len(),
        forall|i: int| 0 <= i < k ==> s[i] == t[i],
    ensures
        stash_deps(s, k) == stash_deps(t, k),
    decreases k,
{
    if k > 0 {
        lemma_stash_prefix(s, t, k - 1);
    }
}

/// A module adds its subtree's modules as nodes and as `Contains` edges,
/// and its subtree's dependencies to the stash.
proof fn lemma_module_size(b: Build, m: ModuleInfo, crate_idx: usize, parent: usize)
    ensures
        with_module(b, m, crate_idx, parent).nodes.len() == b.nodes.len() + module_count(m),
        with_module(b, m, crate_idx, parent).edges.len() == b.edges.len() + module_count(m),
        stash_total(with_module(b, m, crate_idx, parent)) == stash_total(b) + dep_count(m),
    decreases m, 1int,
{
    let idx = b.nodes.len() as usize;
    let b1 = Build {
        nodes: b.nodes.push(crate::graph::Node::Module { name: m.name, crate_idx }),
        edges: b.edges.push((parent, idx, EdgeView::Contains)),
        module_map: b.module_map.insert(m.full_path@, idx),
        ..b
    };
    let b2 = stashed(b1, m.full_path@, m.dependencies@);
    lemma_stashed(b1, m.full_path@, m.dependencies@);
    lemma_children_size(b2, m.children@, crate_idx, idx, m.children@.len() as int);
}

/// Children add their subtrees' modules and dependencies.
pub proof fn lemma_children_size(b: Build, children: Seq<ModuleInfo>, crate_idx: usize, parent: usize, k: int)
    ensures
        with_children(b, children, crate_idx, parent, k).nodes.len() == b.nodes.len() + children_count(children, k),
        with_children(b, children, crate_idx, parent, k).edges.len() == b.edges.len() + children_count(children, k),
        stash_total(with_children(b, children, crate_idx, parent, k)) == stash_total(b) + children_deps(children, k),
    decreases children, k,
{
    if 0 < k <= children.len() {
        lemma_children_size(b, children, crate_idx, parent, k - 1);
        lemma_module_size(with_children(b, children, crate_idx, parent, k - 1), children[k - 1], crate_idx, parent);
    }
}

/// The trees add no more nodes and edges than their modules, and no more
/// stashed dependencies than they write.
pub proof fn lemma_trees_size(b: Build, trees: Seq<ModuleTree>, k: int)
    ensures
        with_trees(b, trees, k).nodes.len() <= b.nodes.len() + trees_count(trees, k),
        with_trees(b, trees, k).edges.len() <= b.edges.len() + trees_count(trees, k),
        stash_total(with_trees(b, trees, k)) <= stash_total(b) + trees_deps(trees, k),
    decreases k,
{
    if 0 < k <= trees.len() {
        lemma_trees_size(b, trees, k - 1);
        let prev = with_trees(b, trees, k - 1);
        let t = trees[k - 1];
        match resolve(prev, t.root.name@) {
            None => {},
            Some(ci) => {
                let b1 = stashed(prev, t.root.name@, t.root.dependencies@);
                lemma_stashed(prev, t.root.name@, t.root.dependencies@);
                lemma_children_size(b1, t.root.children@, ci, ci, t.root.children@.len() as int);
            },
        }
    }
}

/// A crate's dependency names give at most one edge each.
proof fn lemma_dep_edges_size(b: Build, from: usize, names: Seq<String>, edge: EdgeView, k: int)
    requires
        0 <= k <= names.len(),
    ensures
        dep_edges(b, from, names, edge, k).len() <= k,
    decreases k,
{
    if k > 0 {
        lemma_dep_edges_size(b, from, names, edge, k - 1);
    }
}

/// The crate dependencies add at most one edge per name.
proof fn lemma_crate_deps_size(b: Build, crates: Seq<CrateInfo>, include_tests: bool, k: int)
    requires
        0 <= k <= crates.len(),
    ensures
        with_crate_deps(b, crates, include_tests, k).edges.len() <= b.edges.len() + crates_deps(crates, k),
    decreases k,
{
    if k > 0 {
        lemma_crate_deps_size(b, crates, include_tests, k - 1);
        let prev = with_crate_deps(b, crates, include_tests, k - 1);
        let c = crates[k - 1];
        if prev.crate_map.dom().contains(crate::model::normalized(c.name@)) {
            let from = prev.crate_map[crate::model::normalized(c.name@)];
            lemma_dep_edges_size(
                prev,
                from,
                c.dependencies@,
                EdgeView::CrateDep { context: (crate::model::UsageKind::Production, Seq::empty()) },
                c.dependencies@.len() as int,
            );
            lemma_dep_edges_size(prev, from, c.dev_dependencies@, crate::graph::builder::dev_edge(include_tests), c.dev_dependencies@.len() as int);
        }
        assert(crate_dep_edges(prev, c, include_tests).len() <= c.dependencies@.len() + c.dev_dependencies@.len());
    }
}

/// The target keys give at most one edge each.
proof fn lemma_keys_edges_size(b: Build, from: usize, deps: Seq<DependencyRef>, keys: Seq<Seq<char>>, k: int)
    requires
        0 <= k <= keys.len(),
    ensures
        keys_edges(b, from, deps, keys, k).len() <= k,
    decreases k,
{
    if k > 0 {
        lemma_keys_edges_size(b, from, deps, keys, k - 1);
    }
}

/// A stashed module gives at most one edge per dependency.
proof fn lemma_entry_edges_size(b: Build, path: Seq<char>, deps: Seq<DependencyRef>)
    ensures
        entry_edges(b, path, deps).len() <= deps.len(),
{
    match resolve(b, path) {
        None => {},
        Some(from) => {
            let names = deps.map_values(|d: DependencyRef| crate::model::module_target_of(d@));
            names.lemma_cardinality_of_set();
            vstd::seq_lib::seq_to_set_is_finite(names);
            lemma_sorted_exists(targets(deps));
            let keys = sorted_of(targets(deps));
            lemma_keys_edges_size(b, from, deps, keys, keys.len() as int);
        },
    }
}

/// The module dependency edges number no more than the stashed dependencies.
proof fn lemma_stash_edges_size(b: Build, k: int)
    requires
        0 <= k <= b.stash.len(),
    ensures
        stash_edges(b, k).len() <= stash_deps(b.stash, k),
    decreases k,
{
    if k > 0 {
        lemma_stash_edges_size(b, k - 1);
        lemma_entry_edges_size(b, b.stash[k - 1].0, b.stash[k - 1].1);
    }
}

/// The links to and between external crates give at most one edge each.
proof fn lemma_external_edges_size(b: Build, ext: ExternalsResult, pkgs: Map<Seq<char>, usize>, k1: int, k2: int)
    requires
        0 <= k1 <= ext.workspace_deps@.len(),
        0 <= k2 <= ext.external_deps@.len(),
    ensures
        workspace_ext_edges(b, ext, pkgs, k1).len() <= k1,
        external_ext_edges(ext, pkgs, k2).len() <= k2,
    decreases k1 + k2,
{
    if k1 > 0 {
        lemma_external_edges_size(b, ext, pkgs, k1 - 1, k2);
    }
    if k2 > 0 {
        lemma_external_edges_size(b, ext, pkgs, k1, k2 - 1);
    }
}

/// The graph built from the inputs has no more nodes and edges than their
/// counts.
pub proof fn lemma_built_size(
    crates: Seq<CrateInfo>,
    modules: Seq<ModuleTree>,
    externals: Option<ExternalsResult>,
    include_tests: bool,
)
    ensures
        built(crates, modules, externals, include_tests).nodes.len() <= node_bound(crates, modules, externals),
        built(crates, modules, externals, include_tests).edges.len() <= edge_bound(crates, modules, externals),
{
    let b0 = with_crates(crates, crates.len() as int);
    let b1 = with_trees(b0, modules, modules.len() as int);
    let b2 = with_crate_deps(b1, crates, include_tests, crates.len() as int);
    let b3 = Build { stash: Seq::empty(), ..with_module_deps(b2) };
    lemma_crates_grow(crates, crates.len() as int);
    assert(stash_total(b0) == 0);
    lemma_trees_size(b0, modules, modules.len() as int);
    lemma_crate_deps_size(b1, crates, include_tests, crates.len() as int);
    lemma_crate_deps_grow(b1, crates, include_tests, crates.len() as int);
    lemma_stash_edges_size(b2, b2.stash.len() as int);
    assert(b3.nodes == b2.nodes);
    assert(b3.edges.len() <= b2.edges.len() + stash_total(b2));
    match externals {
        Some(e) => {
            let n = e.crates@.len() as int;
            let nb = with_external_nodes(b3, e, n);
            let pkgs = crate::graph::builder::package_nodes(e, b3.nodes.len(), n);
            lemma_external_edges_size(nb, e, pkgs, e.workspace_deps@.len() as int, e.external_deps@.len() as int);
            assert(with_externals(b3, e).nodes.len() == b3.nodes.len() + n);
        },
        None => {},
    }
}

/// The sum of two capped counts, capped.
fn add_capped(a: u64, b: u64) -> (res: u64)
    requires
        a <= index_limit(),
        b <= index_limit(),
    ensures
        res == capped((a + b) as nat),
{
    let limit: u64 = 4294967295;
    if a + b < limit {
        a + b
    } else {
        limit
    }
}

/// A length, capped.
fn len_capped(n: usize) -> (res: u64)
    ensures
        res == capped(n as nat),
{
    let limit: u64 = 4294967295;
    let n: u64 = n as u64;
    if n < limit {
        n
    } else {
        limit
    }
}

/// The modules and the dependencies of a subtree, each capped.
fn module_sizes(m: &ModuleInfo) -> (res: (u64, u64))
    ensures
        res.0 == capped(module_count(*m)),
        res.1 == capped(dep_count(*m)),
    decreases m, 1int,
{
    let (c, d) = children_sizes(&m.children);
    let nodes = add_capped(1, c);
    let deps = add_capped(len_capped(m.dependencies.len()), d);
    (nodes, deps)
}

/// The modules and the dependencies of the subtrees, each capped.
fn children_sizes(children: &Vec<ModuleInfo>) -> (res: (u64, u64))
    ensures
        res.0 == capped(children_count(children@, children@.len() as int)),
        res.1 == capped(children_deps(children@, children@.len() as int)),
    decreases children@, 0int,
{
    let mut c: u64 = 0;
    let mut d: u64 = 0;
    let mut k: usize = 0;
    while k < children.len()
        invariant
            k <= children@.len(),
            c == capped(children_count(children@, k as int)),
            d == capped(children_deps(children@, k as int)),
        decreases children.len() - k,
    {
        let (mc, md) = module_sizes(&children[k]);
        c = add_capped(c, mc);
        d = add_capped(d, md);
        k = k + 1;
    }
    (c, d)
}

/// The modules and the dependencies of the trees, each capped.
fn trees_sizes(modules: &[ModuleTree]) -> (res: (u64, u64))
    ensures
        res.0 == capped(trees_count(modules@, modules@.len() as int)),
        res.1 == capped(trees_deps(modules@, modules@.len() as int)),
{
    let mut c: u64 = 0;
    let mut d: u64 = 0;
    let mut k: usize = 0;
    while k < modules.len()
        invariant
            k <= modules@.len(),
            c == capped(trees_count(modules@, k as int)),
            d == capped(trees_deps(modules@, k as int)),
        decreases modules.len() - k,
    {
        let (mc, md) = module_sizes(&modules[k].root);
        c = add_capped(c, mc);
        d = add_capped(d, md);
        k = k + 1;
    }
    (c, d)
}

/// The crates' dependency names, capped.
fn crates_size(crates: &[CrateInfo]) -> (res: u64)
    ensures
        res == capped(crates_deps(crates@, crates@.len() as int)),
{
    let mut n: u64 = 0;
    let mut k: usize = 0;
    while k < crates.len()
        invariant
            k <= crates@.len(),
            n == capped(crates_deps(crates@, k as int)),
        decreases crates.len() - k,
    {
        let own = add_capped(len_capped(crates[k].dependencies.len()), len_capped(crates[k].dev_dependencies.len()));
        n = add_capped(n, own);
        k = k + 1;
    }
    n
}

/// The counts of nodes and edges that bound the graph of these inputs,
/// each capped at petgraph's index limit.
pub fn graph_bounds(crates: &[CrateInfo], modules: &[ModuleTree], externals: Option<&ExternalsResult>) -> (res: (u64, u64))
    ensures
        res.0 == capped(node_bound(crates@, modules@, given(externals))),
        res.1 == capped(edge_bound(crates@, modules@, given(externals))),
{
    let (tc, td) = trees_sizes(modules);
    let cd = crates_size(crates);
    let mut nodes = add_capped(len_capped(crates.len()), tc);
    let mut edges = add_capped(add_capped(tc, cd), td);
    match externals {
        Some(e) => {
            nodes = add_capped(nodes, len_capped(e.crates.len()));
            edges = add_capped(edges, add_capped(len_capped(e.workspace_deps.len()), len_capped(e.external_deps.len())));
        },
        None => {},
    }
    (nodes, edges)
}

impl ArcGraph {
    /// `ArcGraph::build` where the inputs' counts of nodes and edges stay
    /// below petgraph's index limit; `None` where either reaches it. The
    /// graph's containment has no cycle.
    pub fn checked_build(
        crates: &[CrateInfo],
        modules: &[ModuleTree],
        externals: Option<&ExternalsResult>,
        include_tests: bool,
    ) -> (res: Option<ArcGraph>)
        ensures
            res is None <==> node_bound(crates@, modules@, given(externals)) >= index_limit()
                || edge_bound(crates@, modules@, given(externals)) >= index_limit(),
            res matches Some(g) ==> g.nodes() == built(crates@, modules@, given(externals), include_tests).nodes
                && edge_views(g) == built(crates@, modules@, given(externals), include_tests).edges
                && containment_acyclic(g.edge_seq(), g.nodes().len()),
    {
        let (nodes, edges) = graph_bounds(crates, modules, externals);
        if nodes < 4294967295 && edges < 4294967295 {
            proof {
                lemma_built_size(crates@, modules@, given(externals), include_tests);
            }
            let g = ArcGraph::build(crates, modules, externals, include_tests);
            proof {
                lemma_built_containment_acyclic(crates@, modules@, given(externals), include_tests, g);
            }
            Some(g)
        } else {
            None
        }
    }
}

} // verus!
