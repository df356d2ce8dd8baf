//! The module trees the build lays down nest: every `Contains` edge runs
//! from an older node to a newer one, so no chain of containers comes back.

use vstd::prelude::*;

use crate::analyze::externals::ExternalsResult;
use crate::graph::builder::{
    built, crate_dep_edges, dep_edges, edge_views, external_ext_edges, index_limit, keys_edges, maps_valid,
    resolve, stash_edges, entry_edges, stashed, with_children, with_crate_deps, with_crates,
    with_external_nodes, with_module, with_module_deps, with_trees,
    workspace_ext_edges, lemma_crates_valid, Build, EdgeView,
};
use crate::graph::{container, container_upto, containment_acyclic, ranked, ArcGraph, Edge};
use crate::graph::limits::{
    children_count, lemma_children_size, lemma_trees_size, module_count, node_bound,
    trees_count,
};
use crate::model::{CrateInfo, DependencyRef, ModuleInfo, ModuleTree};

verus! {

/// Every `Contains` edge so far runs from an older node to a newer one.
pub open spec fn nests(b: Build) -> bool {
    forall|i: int|
        0 <= i < b.edges.len() && (#[trigger] b.edges[i]).2 == EdgeView::Contains ==> b.edges[i].0 < b.edges[i].1
            < b.nodes.len()
}

/// Edges none of which is a `Contains` edge.
pub open spec fn no_contains(extra: Seq<(usize, usize, EdgeView)>) -> bool {
    forall|i: int| 0 <= i < extra.len() ==> (#[trigger] extra[i]).2 != EdgeView::Contains
}

/// Adding edges that contain nothing keeps the nesting.
proof fn lemma_extra_nests(b: Build, extra: Seq<(usize, usize, EdgeView)>)
    requires
        nests(b),
        no_contains(extra),
    ensures
        nests(Build { edges: b.edges + extra, ..b }),
{
    let c = Build { edges: b.edges + extra, ..b };
    assert forall|i: int| 0 <= i < c.edges.len() && (#[trigger] c.edges[i]).2 == EdgeView::Contains implies c.edges[i].0
        < c.edges[i].1 < c.nodes.len() by {
        if i < b.edges.len() {
            assert(c.edges[i] == b.edges[i]);
        } else {
            assert(c.edges[i] == extra[i - b.edges.len()]);
        }
    }
}

/// A module and its subtree keep the nesting and the maps valid.
proof fn lemma_module_nests(b: Build, m: ModuleInfo, crate_idx: usize, parent: usize)
    requires
        nests(b),
        maps_valid(b),
        parent < b.nodes.len(),
        b.nodes.len() + module_count(m) < index_limit(),
    ensures
        nests(with_module(b, m, crate_idx, parent)),
        maps_valid(with_module(b, m, crate_idx, parent)),
    decreases m, 1int,
{
    let idx = b.nodes.len() as usize;
    let b1 = Build {
        nodes: b.nodes.push(crate::graph::Node::Module { name: m.name, crate_idx }),
        edges: b.edges.push((parent, idx, EdgeView::Contains)),
        module_map: b.module_map.insert(m.full_path@, idx),
        ..b
    };
    assert(nests(b1)) by {
        assert forall|i: int| 0 <= i < b1.edges.len() && (#[trigger] b1.edges[i]).2 == EdgeView::Contains implies b1.edges[i].0
            < b1.edges[i].1 < b1.nodes.len() by {
            if i < b.edges.len() {
                assert(b1.edges[i] == b.edges[i]);
            }
        }
    }
    assert(maps_valid(b1)) by {
        assert forall|k: Seq<char>| #[trigger] b1.module_map.dom().contains(k) implies b1.module_map[k] < b1.nodes.len() by {
            if k != m.full_path@ {
                assert(b.module_map.dom().contains(k));
            }
        }
    }
    let b2 = stashed(b1, m.full_path@, m.dependencies@);
    lemma_children_nests(b2, m.children@, crate_idx, idx, m.children@.len() as int);
}

/// Children keep the nesting and the maps valid.
proof fn lemma_children_nests(b: Build, children: Seq<ModuleInfo>, crate_idx: usize, parent: usize, k: int)
    requires
        nests(b),
        maps_valid(b),
        parent < b.nodes.len(),
        0 <= k <= children.len(),
        b.nodes.len() + children_count(children, k) < index_limit(),
    ensures
        nests(with_children(b, children, crate_idx, parent, k)),
        maps_valid(with_children(b, children, crate_idx, parent, k)),
    decreases children, k,
{
    if 0 < k {
        lemma_children_nests(b, children, crate_idx, parent, k - 1);
        lemma_children_size(b, children, crate_idx, parent, k - 1);
        lemma_module_nests(with_children(b, children, crate_idx, parent, k - 1), children[k - 1], crate_idx, parent);
    }
}

/// The trees keep the nesting and the maps valid.
proof fn lemma_trees_nest(b: Build, trees: Seq<ModuleTree>, k: int)
    requires
        nests(b),
        maps_valid(b),
        0 <= k <= trees.len(),
        b.nodes.len() + trees_count(trees, k) < index_limit(),
    ensures
        nests(with_trees(b, trees, k)),
        maps_valid(with_trees(b, trees, k)),
    decreases k,
{
    if 0 < k {
        lemma_trees_nest(b, trees, k - 1);
        lemma_trees_size(b, trees, k - 1);
        let prev = with_trees(b, trees, k - 1);
        let t = trees[k - 1];
        match resolve(prev, t.root.name@) {
            None => {},
            Some(ci) => {
                let b1 = stashed(prev, t.root.name@, t.root.dependencies@);
                assert(b1.nodes == prev.nodes && b1.edges == prev.edges && b1.crate_map == prev.crate_map
                    && b1.module_map == prev.module_map);
                lemma_children_nests(b1, t.root.children@, ci, ci, t.root.children@.len() as int);
            },
        }
    }
}

/// A crate's dependency edges contain nothing.
proof fn lemma_dep_edges_plain(b: Build, from: usize, names: Seq<String>, edge: EdgeView, k: int)
    requires
        edge != EdgeView::Contains,
    ensures
        no_contains(dep_edges(b, from, names, edge, k)),
    decreases k,
{
    if 0 < k <= names.len() {
        lemma_dep_edges_plain(b, from, names, edge, k - 1);
        let prev = dep_edges(b, from, names, edge, k - 1);
        assert forall|i: int| 0 <= i < dep_edges(b, from, names, edge, k).len() implies (#[trigger] dep_edges(b, from, names, edge, k)[i]).2
            != EdgeView::Contains by {
            if i < prev.len() {
                assert(prev[i].2 != EdgeView::Contains);
            }
        }
    }
}

/// The crate dependency edges contain nothing.
proof fn lemma_crate_deps_nest(b: Build, crates: Seq<CrateInfo>, include_tests: bool, k: int)
    requires
        nests(b),
    ensures
        nests(with_crate_deps(b, crates, include_tests, k)),
        with_crate_deps(b, crates, include_tests, k).nodes == b.nodes,
    decreases k,
{
    if 0 < k <= crates.len() {
        lemma_crate_deps_nest(b, crates, include_tests, k - 1);
        let prev = with_crate_deps(b, crates, include_tests, k - 1);
        let c = crates[k - 1];
        if prev.crate_map.dom().contains(crate::model::normalized(c.name@)) {
            let from = prev.crate_map[crate::model::normalized(c.name@)];
            let e1 = EdgeView::CrateDep { context: (crate::model::UsageKind::Production, Seq::empty()) };
            let e2 = crate::graph::builder::dev_edge(include_tests);
            let a = dep_edges(prev, from, c.dependencies@, e1, c.dependencies@.len() as int);
            let d = dep_edges(prev, from, c.dev_dependencies@, e2, c.dev_dependencies@.len() as int);
            lemma_dep_edges_plain(prev, from, c.dependencies@, e1, c.dependencies@.len() as int);
            lemma_dep_edges_plain(prev, from, c.dev_dependencies@, e2, c.dev_dependencies@.len() as int);
            assert forall|i: int| 0 <= i < (a + d).len() implies (#[trigger] (a + d)[i]).2 != EdgeView::Contains by {
                if i < a.len() {
                    assert((a + d)[i] == a[i]);
                } else {
                    assert((a + d)[i] == d[i - a.len()]);
                }
            }
        }
        lemma_extra_nests(prev, crate_dep_edges(prev, c, include_tests));
    }
}

/// A module's dependency edges contain nothing.
proof fn lemma_keys_edges_plain(b: Build, from: usize, deps: Seq<DependencyRef>, keys: Seq<Seq<char>>, k: int)
    ensures
        no_contains(keys_edges(b, from, deps, keys, k)),
    decreases k,
{
    if 0 < k <= keys.len() {
        lemma_keys_edges_plain(b, from, deps, keys, k - 1);
        let prev = keys_edges(b, from, deps, keys, k - 1);
        assert forall|i: int| 0 <= i < keys_edges(b, from, deps, keys, k).len() implies (#[trigger] keys_edges(b, from, deps, keys, k)[i]).2
            != EdgeView::Contains by {
            if i < prev.len() {
                assert(prev[i].2 != EdgeView::Contains);
            }
        }
    }
}

/// The module dependency edges contain nothing.
proof fn lemma_stash_edges_plain(b: Build, k: int)
    ensures
        no_contains(stash_edges(b, k)),
    decreases k,
{
    if 0 < k <= b.stash.len() {
        lemma_stash_edges_plain(b, k - 1);
        let prev = stash_edges(b, k - 1);
        let e = entry_edges(b, b.stash[k - 1].0, b.stash[k - 1].1);
        match resolve(b, b.stash[k - 1].0) {
            None => {},
            Some(from) => {
                let keys = crate::sorting::sorted_of(crate::graph::builder::targets(b.stash[k - 1].1));
                lemma_keys_edges_plain(b, from, b.stash[k - 1].1, keys, keys.len() as int);
            },
        }
        assert forall|i: int| 0 <= i < (prev + e).len() implies (#[trigger] (prev + e)[i]).2 != EdgeView::Contains by {
            if i < prev.len() {
                assert((prev + e)[i] == prev[i]);
            } else {
                assert((prev + e)[i] == e[i - prev.len()]);
            }
        }
    }
}

/// The edges to and between external crates contain nothing.
proof fn lemma_external_edges_plain(b: Build, ext: ExternalsResult, pkgs: Map<Seq<char>, usize>, k1: int, k2: int)
    requires
        0 <= k1,
        0 <= k2,
    ensures
        no_contains(workspace_ext_edges(b, ext, pkgs, k1)),
        no_contains(external_ext_edges(ext, pkgs, k2)),
    decreases k1 + k2,
{
    if 0 < k1 <= ext.workspace_deps@.len() {
        lemma_external_edges_plain(b, ext, pkgs, k1 - 1, 0);
        let prev = workspace_ext_edges(b, ext, pkgs, k1 - 1);
        let cur = workspace_ext_edges(b, ext, pkgs, k1);
        assert forall|i: int| 0 <= i < cur.len() implies (#[trigger] cur[i]).2 != EdgeView::Contains by {
            if i < prev.len() {
                assert(cur[i] == prev[i]);
            }
        }
    }
    if 0 < k2 <= ext.external_deps@.len() {
        lemma_external_edges_plain(b, ext, pkgs, 0, k2 - 1);
        let prev = external_ext_edges(ext, pkgs, k2 - 1);
        let cur = external_ext_edges(ext, pkgs, k2);
        assert forall|i: int| 0 <= i < cur.len() implies (#[trigger] cur[i]).2 != EdgeView::Contains by {
            if i < prev.len() {
                assert(cur[i] == prev[i]);
            }
        }
    }
}

/// The built graph nests.
proof fn lemma_built_nests(
    crates: Seq<CrateInfo>,
    modules: Seq<ModuleTree>,
    externals: Option<ExternalsResult>,
    include_tests: bool,
)
    requires
        node_bound(crates, modules, externals) < index_limit(),
    ensures
        nests(built(crates, modules, externals, include_tests)),
{
    let b0 = with_crates(crates, crates.len() as int);
    let b1 = with_trees(b0, modules, modules.len() as int);
    let b2 = with_crate_deps(b1, crates, include_tests, crates.len() as int);
    let b3 = Build { stash: Seq::empty(), ..with_module_deps(b2) };
    crate::graph::builder::lemma_crates_grow(crates, crates.len() as int);
    lemma_crates_valid(crates, crates.len() as int);
    assert(nests(b0));
    lemma_trees_nest(b0, modules, modules.len() as int);
    lemma_crate_deps_nest(b1, crates, include_tests, crates.len() as int);
    lemma_stash_edges_plain(b2, b2.stash.len() as int);
    lemma_extra_nests(b2, stash_edges(b2, b2.stash.len() as int));
    assert(nests(b3));
    match externals {
        Some(e) => {
            let n = e.crates@.len() as int;
            let nb = with_external_nodes(b3, e, n);
            let pkgs = crate::graph::builder::package_nodes(e, b3.nodes.len(), n);
            let ws = workspace_ext_edges(nb, e, pkgs, e.workspace_deps@.len() as int);
            let ex = external_ext_edges(e, pkgs, e.external_deps@.len() as int);
            lemma_external_edges_plain(nb, e, pkgs, e.workspace_deps@.len() as int, e.external_deps@.len() as int);
            assert(nests(nb)) by {
                assert forall|i: int| 0 <= i < nb.edges.len() && (#[trigger] nb.edges[i]).2 == EdgeView::Contains implies nb.edges[i].0
                    < nb.edges[i].1 < nb.nodes.len() by {
                    assert(nb.edges[i] == b3.edges[i]);
                }
            }
            assert forall|i: int| 0 <= i < (ws + ex).len() implies (#[trigger] (ws + ex)[i]).2 != EdgeView::Contains by {
                if i < ws.len() {
                    assert((ws + ex)[i] == ws[i]);
                } else {
                    assert((ws + ex)[i] == ex[i - ws.len()]);
                }
            }
            lemma_extra_nests(nb, ws + ex);
        },
        None => {},
    }
}

/// Where there is a container, a `Contains` edge into the node runs from it.
proof fn lemma_container_edge(edges: Seq<(usize, usize, Edge)>, x: usize, k: int) -> (i: int)
    requires
        container_upto(edges, x, k) is Some,
    ensures
        0 <= i < k <= edges.len(),
        edges[i].0 == container_upto(edges, x, k)->0,
        edges[i].1 == x,
        edges[i].2 is Contains,
    decreases k,
{
    if edges[k - 1].1 == x && edges[k - 1].2 is Contains {
        k - 1
    } else {
        lemma_container_edge(edges, x, k - 1)
    }
}

/// The graph that `ArcGraph::build` makes has no containment cycle: each
/// module's container is a node made before it.
pub proof fn lemma_built_containment_acyclic(
    crates: Seq<CrateInfo>,
    modules: Seq<ModuleTree>,
    externals: Option<ExternalsResult>,
    include_tests: bool,
    g: ArcGraph,
)
    requires
        node_bound(crates, modules, externals) < index_limit(),
        g.nodes() == built(crates, modules, externals, include_tests).nodes,
        edge_views(g) == built(crates, modules, externals, include_tests).edges,
    ensures
        containment_acyclic(g.edge_seq(), g.nodes().len()),
{
    let b = built(crates, modules, externals, include_tests);
    lemma_built_nests(crates, modules, externals, include_tests);
    let edges = g.edge_seq();
    let n = g.nodes().len();
    let depth = Seq::new(n, |i: int| i as nat);
    assert forall|x: usize| x < n implies match #[trigger] container(edges, x) {
        Some(p) => p < n && depth[p as int] < depth[x as int],
        None => true,
    } by {
        if container(edges, x) is Some {
            let i = lemma_container_edge(edges, x, edges.len() as int);
            assert(edge_views(g)[i] == b.edges[i]);
            assert(b.edges[i].2 == EdgeView::Contains);
        }
    }
    assert(ranked(edges, depth, n));
}

} // verus!
