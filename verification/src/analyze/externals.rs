//! External crate dependencies, read off the package graph cargo resolves.
//!
//! The package graph comes in as plain values: the packages with their ids
//! and sources, the workspace members, and the resolved nodes with the
//! dependency edges each carries.

use vstd::prelude::*;

use crate::collections::{StrMap, StrSet};
use crate::model::{normalize_crate_name, normalized};

verus! {

/// The kind of a dependency edge as cargo reports it.
#[derive(Clone, Copy, Debug, PartialEq, Eq, Structural)]
pub enum DependencyKind {
    Normal,
    Development,
    Build,
    Unknown,
}

/// One package of the resolved graph.
#[derive(Debug)]
pub struct Package {
    pub id: String,
    pub name: String,
    pub version: String,
    /// Where the package comes from; `None` for a path package of the
    /// workspace.
    pub source: Option<String>,
}

/// One dependency edge of a resolved node: the name code uses for it (with
/// renames and `-` as `_`), the package it resolves to, and its kinds.
#[derive(Debug)]
pub struct NodeDep {
    pub name: String,
    pub pkg: String,
    pub dep_kinds: Vec<DependencyKind>,
}

/// A resolved node: a package and the dependencies it resolved to.
#[derive(Debug)]
pub struct ResolveNode {
    pub id: String,
    pub deps: Vec<NodeDep>,
}

/// The resolved dependency graph.
#[derive(Debug)]
pub struct Resolve {
    pub nodes: Vec<ResolveNode>,
}

/// What the analysis reads of cargo's metadata.
#[derive(Debug)]
pub struct Metadata {
    pub packages: Vec<Package>,
    pub workspace_members: Vec<String>,
    /// `None` where the metadata was asked for without resolving.
    pub resolve: Option<Resolve>,
}

/// Metadata for a single external crate (one entry per version).
#[derive(Debug)]
pub struct ExternalCrateInfo {
    pub name: String,
    pub version: String,
    pub package_id: String,
}

/// Dependency edge between two external crates.
#[derive(Debug)]
pub struct ExternalDep {
    pub from_pkg_id: String,
    pub to_pkg_id: String,
    pub dep_kinds: Vec<DependencyKind>,
}

/// Dependency edge from a workspace crate to an external crate.
#[derive(Debug)]
pub struct WorkspaceExternalDep {
    pub workspace_crate: String,
    pub external_pkg_id: String,
    pub dep_kinds: Vec<DependencyKind>,
}

/// Result of external dependency analysis.
#[derive(Debug)]
pub struct ExternalsResult {
    pub crates: Vec<ExternalCrateInfo>,
    pub external_deps: Vec<ExternalDep>,
    pub workspace_deps: Vec<WorkspaceExternalDep>,
    /// `workspace_crate_name` -> (`code_name` -> `package_id`). Per workspace
    /// crate, because different members can depend on different versions of
    /// the same external crate.
    pub crate_name_map: StrMap<StrMap<String>>,
}

/// The position of the last of the first `n` packages with id `id`, or -1:
/// where ids repeat, the later package is the one looked up.
pub open spec fn last_package_index(pkgs: Seq<Package>, id: Seq<char>, n: int) -> int
    decreases n,
{
    if n <= 0 || n > pkgs.len() {
        -1
    } else if pkgs[n - 1].id@ == id {
        n - 1
    } else {
        last_package_index(pkgs, id, n - 1)
    }
}

/// The position found is one of the first `n` packages, and has id `id`.
pub proof fn lemma_last_package_index(pkgs: Seq<Package>, id: Seq<char>, n: int)
    ensures
        ({
            let r = last_package_index(pkgs, id, n);
            r >= -1 && (r >= 0 ==> r < n && r < pkgs.len() && pkgs[r].id@ == id)
        }),
    decreases n,
{
    if n > 0 && n <= pkgs.len() && pkgs[n - 1].id@ != id {
        lemma_last_package_index(pkgs, id, n - 1);
    }
}

/// The package with id `id`.
pub open spec fn package_of(pkgs: Seq<Package>, id: Seq<char>) -> Option<Package> {
    let i = last_package_index(pkgs, id, pkgs.len() as int);
    if i >= 0 {
        Some(pkgs[i])
    } else {
        None
    }
}

/// Whether a dependency kind is one the analysis follows: normal and
/// development dependencies, not build ones.
pub open spec fn followed(k: DependencyKind) -> bool {
    k == DependencyKind::Normal || k == DependencyKind::Development
}

/// The followed kinds of `ks`, in order.
pub open spec fn followed_kinds(ks: Seq<DependencyKind>) -> Seq<DependencyKind>
    decreases ks.len(),
{
    if ks.len() == 0 {
        Seq::empty()
    } else if followed(ks.last()) {
        followed_kinds(ks.drop_last()).push(ks.last())
    } else {
        followed_kinds(ks.drop_last())
    }
}

/// Whether `id` is a workspace member.
pub open spec fn is_member(m: Metadata, id: Seq<char>) -> bool {
    exists|i: int| 0 <= i < m.workspace_members@.len() && #[trigger] m.workspace_members@[i]@ == id
}

/// A workspace-to-external edge as plain values: the member's normalized
/// name, the code name of the dependency, the external package's id, the
/// followed kinds, and the package's name and version.
pub ghost struct ExternalEdge {
    pub member: Seq<char>,
    pub code_name: Seq<char>,
    pub pkg: Seq<char>,
    pub kinds: Seq<DependencyKind>,
    pub name: Seq<char>,
    pub version: Seq<char>,
}

/// The name a resolved node goes by: its package's name, `?` where the node
/// names no package.
pub open spec fn node_name(m: Metadata, node: ResolveNode) -> Seq<char> {
    match package_of(m.packages@, node.id@) {
        Some(p) => p.name@,
        None => seq!['?'],
    }
}

/// What one dependency edge of `node` contributes: an edge where the node is
/// a workspace member, the dependency names a package with a source (so not
/// one of the workspace), and one of its kinds is followed.
pub open spec fn edge_of(m: Metadata, node: ResolveNode, dep: NodeDep) -> Option<ExternalEdge> {
    match package_of(m.packages@, dep.pkg@) {
        None => None,
        Some(p) => if followed_kinds(dep.dep_kinds@).len() == 0 || p.source is None || !is_member(
            m,
            node.id@,
        ) {
            None
        } else {
            Some(
                ExternalEdge {
                    member: normalized(node_name(m, node)),
                    code_name: dep.name@,
                    pkg: dep.pkg@,
                    kinds: followed_kinds(dep.dep_kinds@),
                    name: p.name@,
                    version: p.version@,
                },
            )
        },
    }
}

/// The edges of the first `j` dependencies of `node`, in order.
pub open spec fn node_edges(m: Metadata, node: ResolveNode, j: int) -> Seq<ExternalEdge>
    decreases j,
{
    if j <= 0 || j > node.deps@.len() {
        Seq::empty()
    } else {
        match edge_of(m, node, node.deps@[j - 1]) {
            Some(e) => node_edges(m, node, j - 1).push(e),
            None => node_edges(m, node, j - 1),
        }
    }
}

/// The edges of the first `i` nodes, node by node.
pub open spec fn edges_upto(m: Metadata, nodes: Seq<ResolveNode>, i: int) -> Seq<ExternalEdge>
    decreases i,
{
    if i <= 0 || i > nodes.len() {
        Seq::empty()
    } else {
        edges_upto(m, nodes, i - 1) + node_edges(m, nodes[i - 1], nodes[i - 1].deps@.len() as int)
    }
}

/// Every workspace-to-external edge of the resolved graph, in the order the
/// nodes and their dependencies come.
pub open spec fn external_edges(m: Metadata) -> Seq<ExternalEdge> {
    match m.resolve {
        None => Seq::empty(),
        Some(r) => edges_upto(m, r.nodes@, r.nodes@.len() as int),
    }
}

/// The external crates the edges reach, one per package id, in the order the
/// ids first appear: `(name, version, package id)`.
pub open spec fn crates_of(es: Seq<ExternalEdge>) -> Seq<(Seq<char>, Seq<char>, Seq<char>)>
    decreases es.len(),
{
    if es.len() == 0 {
        Seq::empty()
    } else {
        let prev = crates_of(es.drop_last());
        let e = es.last();
        if prev.map_values(|c: (Seq<char>, Seq<char>, Seq<char>)| c.2).contains(e.pkg) {
            prev
        } else {
            prev.push((e.name, e.version, e.pkg))
        }
    }
}

/// Per workspace member, the package id each code name resolves to; a later
/// edge for the same name wins.
pub open spec fn names_of(es: Seq<ExternalEdge>) -> Map<Seq<char>, Map<Seq<char>, Seq<char>>>
    decreases es.len(),
{
    if es.len() == 0 {
        Map::empty()
    } else {
        let prev = names_of(es.drop_last());
        let e = es.last();
        let inner = if prev.dom().contains(e.member) {
            prev[e.member]
        } else {
            Map::empty()
        };
        prev.insert(e.member, inner.insert(e.code_name, e.pkg))
    }
}

/// A workspace dependency as plain values.
pub open spec fn ws_dep_view(d: WorkspaceExternalDep) -> (Seq<char>, Seq<char>, Seq<DependencyKind>) {
    (d.workspace_crate@, d.external_pkg_id@, d.dep_kinds@)
}

/// What an edge says of a workspace dependency.
pub open spec fn edge_dep(e: ExternalEdge) -> (Seq<char>, Seq<char>, Seq<DependencyKind>) {
    (e.member, e.pkg, e.kinds)
}

/// An external crate as plain values.
pub open spec fn crate_view(c: ExternalCrateInfo) -> (Seq<char>, Seq<char>, Seq<char>) {
    (c.name@, c.version@, c.package_id@)
}

/// The view of a per-member name map, its inner maps taken by their view.
pub open spec fn name_map_view(m: StrMap<StrMap<String>>) -> Map<Seq<char>, Map<Seq<char>, Seq<char>>> {
    Map::new(
        |k: Seq<char>| m@.dom().contains(k),
        |k: Seq<char>| m@[k]@.map_values(|s: String| s@),
    )
}

/// Where the last package with id `id` stands.
fn find_package(pkgs: &Vec<Package>, id: &str) -> (res: Option<usize>)
    ensures
        match res {
            Some(i) => i == last_package_index(pkgs@, id@, pkgs@.len() as int) && i < pkgs@.len(),
            None => last_package_index(pkgs@, id@, pkgs@.len() as int) == -1,
        },
{
    let mut n: usize = pkgs.len();
    while n > 0
        invariant
            n <= pkgs@.len(),
            last_package_index(pkgs@, id@, pkgs@.len() as int) == last_package_index(pkgs@, id@, n as int),
        decreases n,
    {
        if crate::collections::str_eq(pkgs[n - 1].id.as_str(), id) {
            return Some(n - 1);
        }
        n = n - 1;
    }
    None
}

/// Whether `id` is a workspace member.
fn member(members: &Vec<String>, id: &str) -> (res: bool)
    ensures
        res == exists|i: int| 0 <= i < members@.len() && #[trigger] members@[i]@ == id@,
{
    let mut i: usize = 0;
    while i < members.len()
        invariant
            i <= members@.len(),
            forall|k: int| 0 <= k < i ==> #[trigger] members@[k]@ != id@,
        decreases members.len() - i,
    {
        if crate::collections::str_eq(members[i].as_str(), id) {
            return true;
        }
        i = i + 1;
    }
    false
}

/// The normal and development kinds of `ks`, in order.
fn keep_followed(ks: &Vec<DependencyKind>) -> (res: Vec<DependencyKind>)
    ensures
        res@ == followed_kinds(ks@),
{
    let mut out: Vec<DependencyKind> = Vec::new();
    let mut i: usize = 0;
    while i < ks.len()
        invariant
            i <= ks@.len(),
            out@ == followed_kinds(ks@.take(i as int)),
        decreases ks.len() - i,
    {
        assert(ks@.take(i + 1).drop_last() =~= ks@.take(i as int));
        let k = ks[i];
        if k == DependencyKind::Normal || k == DependencyKind::Development {
            out.push(k);
        }
        i = i + 1;
    }
    assert(ks@.take(ks@.len() as int) =~= ks@);
    out
}

/// The follow-up of one edge on the three results: the workspace dependency
/// is appended, the crate recorded where its id is new, and the code name
/// mapped in the member's map.
fn record_edge(
    workspace_deps: &mut Vec<WorkspaceExternalDep>,
    crates: &mut Vec<ExternalCrateInfo>,
    seen: &mut StrSet,
    names: &mut StrMap<StrMap<String>>,
    member_name: String,
    code_name: &str,
    pkg: &Package,
    kinds: Vec<DependencyKind>,
    Ghost(done): Ghost<Seq<ExternalEdge>>,
    Ghost(e): Ghost<ExternalEdge>,
)
    requires
        old(workspace_deps)@.map_values(|d: WorkspaceExternalDep| ws_dep_view(d)) == done.map_values(
            |x: ExternalEdge| edge_dep(x),
        ),
        old(crates)@.map_values(|c: ExternalCrateInfo| crate_view(c)) == crates_of(done),
        old(seen)@ == crates_of(done).map_values(|c: (Seq<char>, Seq<char>, Seq<char>)| c.2).to_set(),
        name_map_view(*old(names)) == names_of(done),
        e == (ExternalEdge {
            member: member_name@,
            code_name: code_name@,
            pkg: pkg.id@,
            kinds: kinds@,
            name: pkg.name@,
            version: pkg.version@,
        }),
    ensures
        final(workspace_deps)@.map_values(|d: WorkspaceExternalDep| ws_dep_view(d)) == done.push(e).map_values(
            |x: ExternalEdge| edge_dep(x),
        ),
        final(crates)@.map_values(|c: ExternalCrateInfo| crate_view(c)) == crates_of(done.push(e)),
        final(seen)@ == crates_of(done.push(e)).map_values(|c: (Seq<char>, Seq<char>, Seq<char>)| c.2).to_set(),
        name_map_view(*final(names)) == names_of(done.push(e)),
{
    let ghost all = done.push(e);
    assert(all.drop_last() =~= done);
    let ghost ids = crates_of(done).map_values(|c: (Seq<char>, Seq<char>, Seq<char>)| c.2);
    if !seen.contains(pkg.id.as_str()) {
        assert(!ids.contains(e.pkg)) by {
            if ids.contains(e.pkg) {
                let j = choose|j: int| 0 <= j < ids.len() && ids[j] == e.pkg;
                assert(ids.to_set().contains(ids[j]));
            }
        }
        seen.insert(pkg.id.clone());
        crates.push(
            ExternalCrateInfo {
                name: pkg.name.clone(),
                version: pkg.version.clone(),
                package_id: pkg.id.clone(),
            },
        );
        assert(crates_of(all) =~= crates_of(done).push((e.name, e.version, e.pkg)));
        assert(crates@.map_values(|c: ExternalCrateInfo| crate_view(c)) =~= crates_of(all));
        assert(crates_of(all).map_values(|c: (Seq<char>, Seq<char>, Seq<char>)| c.2) =~= ids.push(
            e.pkg,
        ));
        assert forall|x: Seq<char>| #[trigger] ids.push(e.pkg).contains(x) == (ids.contains(x) || x
            == e.pkg) by {
            if ids.push(e.pkg).contains(x) {
                let k = choose|k: int| 0 <= k < ids.len() + 1 && ids.push(e.pkg)[k] == x;
                if k < ids.len() {
                    assert(ids[k] == x);
                }
            }
            if ids.contains(x) {
                let k = choose|k: int| 0 <= k < ids.len() && ids[k] == x;
                assert(ids.push(e.pkg)[k] == x);
            }
            if x == e.pkg {
                assert(ids.push(e.pkg)[ids.len() as int] == x);
            }
        }
        assert(seen@ =~= ids.push(e.pkg).to_set());
    } else {
        assert(ids.contains(e.pkg)) by {
            assert(ids.to_set().contains(e.pkg));
        }
        assert(crates_of(all) == crates_of(done));
    }
    let ghost old_ws = workspace_deps@;
    let added = WorkspaceExternalDep {
        workspace_crate: member_name.clone(),
        external_pkg_id: pkg.id.clone(),
        dep_kinds: kinds,
    };
    assert(ws_dep_view(added) == edge_dep(e));
    workspace_deps.push(added);
    assert(workspace_deps@ == old_ws.push(added));
    assert(old_ws.map_values(|d: WorkspaceExternalDep| ws_dep_view(d)) == done.map_values(
        |x: ExternalEdge| edge_dep(x),
    ));
    let ghost lhs = workspace_deps@.map_values(|d: WorkspaceExternalDep| ws_dep_view(d));
    let ghost rhs = all.map_values(|x: ExternalEdge| edge_dep(x));
    let ghost lo = old_ws.map_values(|d: WorkspaceExternalDep| ws_dep_view(d));
    let ghost ro = done.map_values(|x: ExternalEdge| edge_dep(x));
    assert(lo.len() == ro.len());
    assert forall|k: int| 0 <= k < all.len() implies #[trigger] lhs[k] == rhs[k] by {
        if k < done.len() {
            assert(lo[k] == ro[k]);
            assert(workspace_deps@[k] == old_ws[k]);
            assert(all[k] == done[k]);
        } else {
            assert(workspace_deps@[k] == added);
            assert(all[k] == e);
        }
    }
    assert(workspace_deps@.map_values(|d: WorkspaceExternalDep| ws_dep_view(d)) =~= all.map_values(
        |x: ExternalEdge| edge_dep(x),
    ));
    let ghost before = names_of(done);
    let mut inner = match names.replace(member_name.as_str(), StrMap::new()) {
        Some(prev) => prev,
        None => StrMap::new(),
    };
    let ghost inner_before = inner@.map_values(|s: String| s@);
    assert(inner_before =~= (if before.dom().contains(e.member) {
        before[e.member]
    } else {
        Map::empty()
    }));
    inner.insert(code_name.to_string(), pkg.id.clone());
    assert(inner@.map_values(|s: String| s@) =~= inner_before.insert(e.code_name, e.pkg));
    names.insert(member_name, inner);
    assert(name_map_view(*names) =~= names_of(all));
}

/// Analyze external crate dependencies from cargo metadata.
///
/// Walks the dependency edges of every workspace member in the resolved
/// graph. An edge to a package with a source (registry, git, ..) whose kinds
/// include a normal or development one is a workspace-to-external
/// dependency: it is listed with the followed kinds, its crate is recorded
/// once per package id, and the name code uses for it maps to the package
/// in the member's map. Build-only dependencies and path dependencies are
/// left out. The crates come in the order their ids are first met.
///
/// With `transitive`, the dependencies of the external crates are followed
/// too, breadth first from the direct ones: every followed dependency of a
/// reached external package on another external package is listed between
/// the two, and each package reached is recorded as a crate. Without it, no
/// dependency between external crates is listed.
pub fn analyze_externals(metadata: &Metadata, transitive: bool) -> (res: ExternalsResult)
    ensures
        res.workspace_deps@.map_values(|d: WorkspaceExternalDep| ws_dep_view(d)) == external_edges(
            *metadata,
        ).map_values(|e: ExternalEdge| edge_dep(e)),
        name_map_view(res.crate_name_map) == names_of(external_edges(*metadata)),
        !transitive ==> res.crates@.map_values(|c: ExternalCrateInfo| crate_view(c)) == crates_of(
            external_edges(*metadata),
        ),
        !transitive ==> res.external_deps@.len() == 0,
        transitive ==> transitive_crates(*metadata, res.crates@.map_values(|c: ExternalCrateInfo| crate_view(c))),
        transitive ==> transitive_deps(*metadata, ext_views(res.external_deps@)),
{
    let mut workspace_deps: Vec<WorkspaceExternalDep> = Vec::new();
    let mut crates: Vec<ExternalCrateInfo> = Vec::new();
    let mut seen = StrSet::new();
    let mut names: StrMap<StrMap<String>> = StrMap::new();
    let ghost empty_edges = Seq::<ExternalEdge>::empty();
    assert(workspace_deps@.map_values(|d: WorkspaceExternalDep| ws_dep_view(d)) =~= empty_edges.map_values(
        |x: ExternalEdge| edge_dep(x),
    ));
    assert(crates@.map_values(|c: ExternalCrateInfo| crate_view(c)) =~= crates_of(empty_edges));
    assert(crates_of(empty_edges).map_values(|c: (Seq<char>, Seq<char>, Seq<char>)| c.2).to_set()
        =~= Set::<Seq<char>>::empty());
    assert(name_map_view(names) =~= names_of(empty_edges));
    let resolve = match &metadata.resolve {
        None => {
            proof {
                assert forall|p: Seq<char>| !reached(*metadata, p) by {
                    if reached(*metadata, p) {
                        let w = choose|w: Seq<Seq<char>>| #[trigger] ext_walk(*metadata, w) && w.last() == p;
                        assert(is_start(*metadata, w[0]));
                    }
                }
                assert(crate_ids(crates@.map_values(|c: ExternalCrateInfo| crate_view(c))) =~= Seq::<Seq<char>>::empty());
                assert(ext_views(Seq::<ExternalDep>::empty()) =~= Seq::empty());
                let cv = crates@.map_values(|c: ExternalCrateInfo| crate_view(c));
                assert(cv.take(0) =~= cv);
                assert(transitive_crates(*metadata, cv));
                assert(transitive_deps(*metadata, Seq::empty()));
            }
            return ExternalsResult {
                crates,
                external_deps: Vec::new(),
                workspace_deps,
                crate_name_map: names,
            };
        },
        Some(r) => r,
    };
    let nodes = &resolve.nodes;
    let mut i: usize = 0;
    while i < nodes.len()
        invariant
            i <= nodes@.len(),
            metadata.resolve == Some(*resolve),
            nodes == resolve.nodes,
            workspace_deps@.map_values(|d: WorkspaceExternalDep| ws_dep_view(d)) == edges_upto(
                *metadata,
                nodes@,
                i as int,
            ).map_values(|x: ExternalEdge| edge_dep(x)),
            crates@.map_values(|c: ExternalCrateInfo| crate_view(c)) == crates_of(
                edges_upto(*metadata, nodes@, i as int),
            ),
            seen@ == crates_of(edges_upto(*metadata, nodes@, i as int)).map_values(
                |c: (Seq<char>, Seq<char>, Seq<char>)| c.2,
            ).to_set(),
            name_map_view(names) == names_of(edges_upto(*metadata, nodes@, i as int)),
        decreases nodes.len() - i,
    {
        let node = &nodes[i];
        let ghost before = edges_upto(*metadata, nodes@, i as int);
        let is_workspace = member(&metadata.workspace_members, node.id.as_str());
        let node_pkg = find_package(&metadata.packages, node.id.as_str());
        let ws_name = match node_pkg {
            Some(p) => normalize_crate_name(metadata.packages[p].name.as_str()),
            None => normalize_crate_name("?"),
        };
        proof {
            reveal_strlit("?");
            assert(ws_name@ == normalized(node_name(*metadata, *node)));
        }
        let mut j: usize = 0;
        while j < node.deps.len()
            invariant
                i < nodes@.len(),
                j <= node.deps@.len(),
                *node == nodes@[i as int],
                is_workspace == is_member(*metadata, node.id@),
                ws_name@ == normalized(node_name(*metadata, *node)),
                workspace_deps@.map_values(|d: WorkspaceExternalDep| ws_dep_view(d)) == (before
                    + node_edges(*metadata, *node, j as int)).map_values(|x: ExternalEdge| edge_dep(x)),
                crates@.map_values(|c: ExternalCrateInfo| crate_view(c)) == crates_of(
                    before + node_edges(*metadata, *node, j as int),
                ),
                seen@ == crates_of(before + node_edges(*metadata, *node, j as int)).map_values(
                    |c: (Seq<char>, Seq<char>, Seq<char>)| c.2,
                ).to_set(),
                name_map_view(names) == names_of(before + node_edges(*metadata, *node, j as int)),
            decreases node.deps.len() - j,
        {
            let dep = &node.deps[j];
            let ghost done = before + node_edges(*metadata, *node, j as int);
            let found = find_package(&metadata.packages, dep.pkg.as_str());
            let kinds = keep_followed(&dep.dep_kinds);
            match found {
                Some(p) => {
                    let pkg = &metadata.packages[p];
                    if kinds.len() > 0 && pkg.source.is_some() && is_workspace {
                        let ghost e = ExternalEdge {
                            member: ws_name@,
                            code_name: dep.name@,
                            pkg: pkg.id@,
                            kinds: kinds@,
                            name: pkg.name@,
                            version: pkg.version@,
                        };
                        proof {
                            lemma_last_package_index(
                                metadata.packages@,
                                dep.pkg@,
                                metadata.packages@.len() as int,
                            );
                            assert(pkg.id@ == dep.pkg@);
                            assert(edge_of(*metadata, *node, node.deps@[j as int]) == Some(e));
                            assert(before + node_edges(*metadata, *node, j + 1) =~= done.push(e));
                        }
                        record_edge(
                            &mut workspace_deps,
                            &mut crates,
                            &mut seen,
                            &mut names,
                            ws_name.clone(),
                            dep.name.as_str(),
                            pkg,
                            kinds,
                            Ghost(done),
                            Ghost(e),
                        );
                    } else {
                        assert(edge_of(*metadata, *node, node.deps@[j as int]) is None);
                        assert(before + node_edges(*metadata, *node, j + 1) =~= done);
                    }
                },
                None => {
                    assert(edge_of(*metadata, *node, node.deps@[j as int]) is None);
                    assert(before + node_edges(*metadata, *node, j + 1) =~= done);
                },
            }
            j = j + 1;
        }
        assert(edges_upto(*metadata, nodes@, i + 1) =~= before + node_edges(
            *metadata,
            *node,
            node.deps@.len() as int,
        ));
        i = i + 1;
    }
    assert(edges_upto(*metadata, nodes@, nodes@.len() as int) == external_edges(*metadata));
    let external_deps = if transitive {
        walk_externals(metadata, &mut crates, seen)
    } else {
        Vec::new()
    };
    ExternalsResult { crates, external_deps, workspace_deps, crate_name_map: names }
}

/// Whether the `j`-th dependency of the `i`-th resolved node is followed to
/// an external package: one of its kinds is followed and the package it
/// names has a source.
pub open spec fn ext_dep_at(m: Metadata, i: int, j: int) -> bool {
    match m.resolve {
        None => false,
        Some(r) => {
            &&& 0 <= i < r.nodes@.len()
            &&& 0 <= j < r.nodes@[i].deps@.len()
            &&& followed_kinds(r.nodes@[i].deps@[j].dep_kinds@).len() > 0
            &&& match package_of(m.packages@, r.nodes@[i].deps@[j].pkg@) {
                Some(p) => p.source is Some,
                None => false,
            }
        },
    }
}

/// That dependency as an edge between packages: the node's id, the
/// package's id, and the followed kinds.
pub open spec fn ext_dep_view(m: Metadata, i: int, j: int) -> (Seq<char>, Seq<char>, Seq<DependencyKind>) {
    let node = m.resolve->0.nodes@[i];
    (node.id@, node.deps@[j].pkg@, followed_kinds(node.deps@[j].dep_kinds@))
}

/// Whether package `a` has a followed dependency on the external package `b`.
pub open spec fn ext_step(m: Metadata, a: Seq<char>, b: Seq<char>) -> bool {
    exists|i: int, j: int| #[trigger] ext_dep_at(m, i, j) && ext_dep_view(m, i, j).0 == a && ext_dep_view(m, i, j).1 == b
}

/// Whether a workspace member depends directly on the external package `b`.
pub open spec fn is_start(m: Metadata, b: Seq<char>) -> bool {
    exists|k: int| 0 <= k < external_edges(m).len() && (#[trigger] external_edges(m)[k]).pkg == b
}

/// The `k`-th step of a walk of packages is a followed dependency.
pub open spec fn walk_step(m: Metadata, w: Seq<Seq<char>>, k: int) -> bool {
    ext_step(m, w[k], w[k + 1])
}

/// A walk from a direct external dependency of a member along followed
/// dependencies between external packages.
pub open spec fn ext_walk(m: Metadata, w: Seq<Seq<char>>) -> bool {
    w.len() >= 1 && is_start(m, w[0]) && forall|k: int| 0 <= k < w.len() - 1 ==> #[trigger] walk_step(m, w, k)
}

/// Whether the external package `b` is reached from the workspace.
pub open spec fn reached(m: Metadata, b: Seq<char>) -> bool {
    exists|w: Seq<Seq<char>>| #[trigger] ext_walk(m, w) && w.last() == b
}

/// A dependency between external crates as plain values.
pub open spec fn ext_view(d: ExternalDep) -> (Seq<char>, Seq<char>, Seq<DependencyKind>) {
    (d.from_pkg_id@, d.to_pkg_id@, d.dep_kinds@)
}

/// The package ids of a list of crates.
pub open spec fn crate_ids(cs: Seq<(Seq<char>, Seq<char>, Seq<char>)>) -> Seq<Seq<char>> {
    cs.map_values(|c: (Seq<char>, Seq<char>, Seq<char>)| c.2)
}

/// The crates of a list of edges hold each edge's package once.
pub proof fn lemma_crates_of_ids(es: Seq<ExternalEdge>)
    ensures
        crate_ids(crates_of(es)).no_duplicates(),
        forall|p: Seq<char>| crate_ids(crates_of(es)).contains(p) <==> exists|k: int| 0 <= k < es.len() && (#[trigger] es[k]).pkg == p,
    decreases es.len(),
{
    if es.len() > 0 {
        let prev = es.drop_last();
        lemma_crates_of_ids(prev);
        let e = es.last();
        let pc = crates_of(prev);
        let ci = crate_ids(crates_of(es));
        if crate_ids(pc).contains(e.pkg) {
            assert(crates_of(es) == pc);
            assert(ci == crate_ids(pc));
        } else {
            assert(crates_of(es) == pc.push((e.name, e.version, e.pkg)));
            assert(ci =~= crate_ids(pc).push(e.pkg));
            assert(ci.no_duplicates()) by {
                assert forall|a: int, b: int| 0 <= a < ci.len() && 0 <= b < ci.len() && a != b implies ci[a] != ci[b] by {
                    if a < ci.len() - 1 && b < ci.len() - 1 {
                        assert(ci[a] == crate_ids(pc)[a] && ci[b] == crate_ids(pc)[b]);
                    } else if a < ci.len() - 1 {
                        assert(ci[a] == crate_ids(pc)[a]);
                        assert(crate_ids(pc).contains(ci[a]));
                    } else {
                        assert(ci[b] == crate_ids(pc)[b]);
                        assert(crate_ids(pc).contains(ci[b]));
                    }
                }
            }
        }
        assert forall|p: Seq<char>| crate_ids(pc).contains(p) implies ci.contains(p) by {
            let u = choose|u: int| 0 <= u < crate_ids(pc).len() && crate_ids(pc)[u] == p;
            assert(ci[u] == crate_ids(pc)[u]);
        }
        assert forall|p: Seq<char>| ci.contains(p) implies crate_ids(pc).contains(p) || p == e.pkg by {
            let u = choose|u: int| 0 <= u < ci.len() && ci[u] == p;
            if u < crate_ids(pc).len() {
                assert(ci[u] == crate_ids(pc)[u]);
            }
        }
        assert forall|p: Seq<char>| ci.contains(p) <==> exists|k: int| 0 <= k < es.len() && (#[trigger] es[k]).pkg == p by {
            if exists|k: int| 0 <= k < es.len() && (#[trigger] es[k]).pkg == p {
                let k = choose|k: int| 0 <= k < es.len() && (#[trigger] es[k]).pkg == p;
                if k < es.len() - 1 {
                    assert(prev[k] == es[k]);
                    assert(crate_ids(pc).contains(p));
                } else {
                    assert(p == e.pkg);
                    if !crate_ids(pc).contains(e.pkg) {
                        assert(ci[ci.len() - 1] == e.pkg);
                    }
                }
            }
            if ci.contains(p) {
                if p == e.pkg {
                    assert(es[es.len() - 1].pkg == p);
                } else {
                    assert(crate_ids(pc).contains(p));
                    let k = choose|k: int| 0 <= k < prev.len() && (#[trigger] prev[k]).pkg == p;
                    assert(es[k] == prev[k]);
                }
            }
        }
    }
}

/// A list without repeats whose entries past `n0` are all among `ids` has
/// at most `ids.len()` entries past `n0`.
pub proof fn lemma_tail_bound(q: Seq<Seq<char>>, n0: int, ids: Seq<Seq<char>>)
    requires
        0 <= n0 <= q.len(),
        q.no_duplicates(),
        forall|x: int| n0 <= x < q.len() ==> ids.contains(#[trigger] q[x]),
    ensures
        q.len() - n0 <= ids.len(),
{
    let t = q.subrange(n0, q.len() as int);
    assert(t.no_duplicates()) by {
        assert forall|a: int, b: int| 0 <= a < t.len() && 0 <= b < t.len() && a != b implies t[a] != t[b] by {
            assert(t[a] == q[a + n0] && t[b] == q[b + n0]);
        }
    }
    t.unique_seq_to_set();
    ids.lemma_cardinality_of_set();
    vstd::seq_lib::seq_to_set_is_finite(ids);
    assert(t.to_set().subset_of(ids.to_set())) by {
        assert forall|p: Seq<char>| t.to_set().contains(p) implies ids.to_set().contains(p) by {
            let a = choose|a: int| 0 <= a < t.len() && t[a] == p;
            assert(t[a] == q[a + n0]);
        }
    }
    vstd::set_lib::lemma_len_subset(t.to_set(), ids.to_set());
}

/// A walk extended by a followed dependency is a walk.
pub proof fn lemma_walk_push(m: Metadata, w: Seq<Seq<char>>, b: Seq<char>)
    requires
        ext_walk(m, w),
        ext_step(m, w.last(), b),
    ensures
        ext_walk(m, w.push(b)),
{
    let w2 = w.push(b);
    assert forall|k: int| 0 <= k < w2.len() - 1 implies #[trigger] walk_step(m, w2, k) by {
        if k < w.len() - 1 {
            assert(walk_step(m, w, k));
            assert(w2[k] == w[k] && w2[k + 1] == w[k + 1]);
        } else {
            assert(w2[k] == w.last() && w2[k + 1] == b);
        }
    }
}

/// Every package a walk reaches is in a list that holds every start and the
/// package of every followed dependency of its members.
pub proof fn lemma_walk_closed(m: Metadata, q: Seq<Seq<char>>, w: Seq<Seq<char>>)
    requires
        ext_walk(m, w),
        forall|b: Seq<char>| #[trigger] is_start(m, b) ==> q.contains(b),
        forall|a: Seq<char>, b: Seq<char>| q.contains(a) && #[trigger] ext_step(m, a, b) ==> q.contains(b),
    ensures
        q.contains(w.last()),
    decreases w.len(),
{
    if w.len() == 1 {
        assert(is_start(m, w[0]));
    } else {
        let v = w.drop_last();
        assert forall|k: int| 0 <= k < v.len() - 1 implies #[trigger] walk_step(m, v, k) by {
            assert(walk_step(m, w, k));
        }
        assert(ext_walk(m, v));
        lemma_walk_closed(m, q, v);
        assert(walk_step(m, w, w.len() - 2));
        assert(v.last() == w[w.len() - 2]);
    }
}

/// The views of a list of strings.
pub open spec fn str_views(q: Seq<String>) -> Seq<Seq<char>> {
    q.map_values(|s: String| s@)
}

/// The views of a list of dependencies between external crates.
pub open spec fn ext_views(ds: Seq<ExternalDep>) -> Seq<(Seq<char>, Seq<char>, Seq<DependencyKind>)> {
    ds.map_values(|d: ExternalDep| ext_view(d))
}

/// Every followed external dependency of package `a` among the first ones
/// (all of nodes before `i`, and of node `i` those before `j`) has its
/// package in `q` and is listed in `ds`.
pub open spec fn done_upto(
    m: Metadata,
    q: Seq<Seq<char>>,
    a: Seq<char>,
    ds: Seq<(Seq<char>, Seq<char>, Seq<DependencyKind>)>,
    i: int,
    j: int,
) -> bool {
    forall|i2: int, j2: int|
        (i2 < i || (i2 == i && j2 < j)) && #[trigger] ext_dep_at(m, i2, j2) && ext_dep_view(m, i2, j2).0 == a
            ==> q.contains(ext_dep_view(m, i2, j2).1) && ds.contains(ext_dep_view(m, i2, j2))
}

/// Each listed dependency is a followed dependency of a reached package on
/// an external package.
pub open spec fn deps_sound(m: Metadata, ds: Seq<(Seq<char>, Seq<char>, Seq<DependencyKind>)>) -> bool {
    forall|d: int|
        0 <= d < ds.len() ==> exists|i: int, j: int|
            #[trigger] ext_dep_at(m, i, j) && #[trigger] ds[d] == ext_dep_view(m, i, j) && reached(m, ext_dep_view(m, i, j).0)
}

/// The packages found so far and their crates: the direct ones first, then
/// further reached packages each once, with their name and version.
pub open spec fn queue_ok(
    m: Metadata,
    ids: Seq<Seq<char>>,
    c0: Seq<(Seq<char>, Seq<char>, Seq<char>)>,
    q: Seq<Seq<char>>,
    cs: Seq<(Seq<char>, Seq<char>, Seq<char>)>,
) -> bool {
    &&& q.len() == cs.len()
    &&& c0.len() <= q.len() <= c0.len() + ids.len()
    &&& cs.take(c0.len() as int) == c0
    &&& crate_ids(cs) == q
    &&& forall|y: int|
        c0.len() <= y < cs.len() ==> (#[trigger] package_of(m.packages@, cs[y].2)) is Some && cs[y] == (package_of(
            m.packages@,
            cs[y].2,
        )->0.name@, package_of(m.packages@, cs[y].2)->0.version@, cs[y].2)
    &&& forall|y: int| c0.len() <= y < q.len() ==> ids.contains(#[trigger] q[y])
    &&& q.no_duplicates()
    &&& forall|y: int| 0 <= y < q.len() ==> reached(m, #[trigger] q[y])
    &&& forall|b: Seq<char>| #[trigger] is_start(m, b) ==> q.contains(b)
}

/// Listing more packages and dependencies keeps what was done done.
pub proof fn lemma_done_grow(
    m: Metadata,
    q: Seq<Seq<char>>,
    q2: Seq<Seq<char>>,
    a: Seq<char>,
    ds: Seq<(Seq<char>, Seq<char>, Seq<DependencyKind>)>,
    ds2: Seq<(Seq<char>, Seq<char>, Seq<DependencyKind>)>,
    i: int,
    j: int,
)
    requires
        done_upto(m, q, a, ds, i, j),
        forall|p: Seq<char>| q.contains(p) ==> q2.contains(p),
        forall|v: (Seq<char>, Seq<char>, Seq<DependencyKind>)| ds.contains(v) ==> ds2.contains(v),
    ensures
        done_upto(m, q2, a, ds2, i, j),
{
}

/// Adding a newly reached package keeps the packages found in order.
pub proof fn lemma_queue_push(
    m: Metadata,
    ids: Seq<Seq<char>>,
    c0: Seq<(Seq<char>, Seq<char>, Seq<char>)>,
    q: Seq<Seq<char>>,
    cs: Seq<(Seq<char>, Seq<char>, Seq<char>)>,
    a: Seq<char>,
    b: Seq<char>,
    pkg: Package,
)
    requires
        queue_ok(m, ids, c0, q, cs),
        ids == m.packages@.map_values(|p: Package| p.id@),
        !q.contains(b),
        package_of(m.packages@, b) == Some(pkg),
        pkg.id@ == b,
        reached(m, a),
        ext_step(m, a, b),
    ensures
        queue_ok(m, ids, c0, q.push(b), cs.push((pkg.name@, pkg.version@, b))),
{
    let q2 = q.push(b);
    let cs2 = cs.push((pkg.name@, pkg.version@, b));
    lemma_last_package_index(m.packages@, b, m.packages@.len() as int);
    let r = last_package_index(m.packages@, b, m.packages@.len() as int);
    assert(ids[r] == b);
    assert(crate_ids(cs2) =~= q2);
    assert(cs2.take(c0.len() as int) =~= cs.take(c0.len() as int));
    assert(q2.no_duplicates()) by {
        assert forall|u: int, v: int| 0 <= u < q2.len() && 0 <= v < q2.len() && u != v implies q2[u] != q2[v] by {
            if u < q.len() && v < q.len() {
                assert(q2[u] == q[u] && q2[v] == q[v]);
            } else if u < q.len() {
                assert(q.contains(q[u]));
            } else {
                assert(q.contains(q[v]));
            }
        }
    }
    assert forall|y: int| c0.len() <= y < q2.len() implies ids.contains(#[trigger] q2[y]) by {
        if y < q.len() {
            assert(q2[y] == q[y]);
        }
    }
    lemma_tail_bound(q2, c0.len() as int, ids);
    let w = choose|w: Seq<Seq<char>>| #[trigger] ext_walk(m, w) && w.last() == a;
    lemma_walk_push(m, w, b);
    assert(w.push(b).last() == b);
    assert forall|y: int| 0 <= y < q2.len() implies reached(m, #[trigger] q2[y]) by {
        if y < q.len() {
            assert(q2[y] == q[y]);
        }
    }
    assert forall|p: Seq<char>| #[trigger] is_start(m, p) implies q2.contains(p) by {
        let u = choose|u: int| 0 <= u < q.len() && q[u] == p;
        assert(q2[u] == p);
    }
    assert forall|y: int|
        c0.len() <= y < cs2.len() implies (#[trigger] package_of(m.packages@, cs2[y].2)) is Some && cs2[y] == (
        package_of(m.packages@, cs2[y].2)->0.name@,
        package_of(m.packages@, cs2[y].2)->0.version@,
        cs2[y].2,
    ) by {
        if y < cs.len() {
            assert(cs2[y] == cs[y]);
        }
    }
}

/// Follow the dependencies of the external crates the workspace reaches,
/// breadth first from its direct ones: every followed dependency of a
/// reached package on an external package is listed, and each package it
/// reaches for the first time is added to the crates.
fn walk_externals(metadata: &Metadata, crates: &mut Vec<ExternalCrateInfo>, seen: StrSet) -> (res: Vec<ExternalDep>)
    requires
        metadata.resolve is Some,
        old(crates)@.map_values(|c: ExternalCrateInfo| crate_view(c)) == crates_of(external_edges(*metadata)),
        seen@ == crate_ids(crates_of(external_edges(*metadata))).to_set(),
    ensures
        transitive_crates(*metadata, final(crates)@.map_values(|c: ExternalCrateInfo| crate_view(c))),
        transitive_deps(*metadata, ext_views(res@)),
{
    let ghost ee = external_edges(*metadata);
    let ghost c0 = crates_of(ee);
    let ghost ids = metadata.packages@.map_values(|p: Package| p.id@);
    let ghost m = *metadata;
    proof {
        lemma_crates_of_ids(ee);
    }
    let resolve = match &metadata.resolve {
        Some(r) => r,
        None => {
            return Vec::new();
        },
    };
    let nodes = &resolve.nodes;
    let mut seen = seen;
    let mut queue: Vec<String> = Vec::new();
    let mut x: usize = 0;
    while x < crates.len()
        invariant
            x <= crates@.len(),
            crates@.map_values(|c: ExternalCrateInfo| crate_view(c)) == c0,
            str_views(queue@) == crate_ids(c0).take(x as int),
        decreases crates.len() - x,
    {
        let ghost before = queue@;
        queue.push(crates[x].package_id.clone());
        proof {
            assert(crate_view(crates@[x as int]) == c0[x as int]);
            assert(crate_ids(c0).take(x + 1) =~= crate_ids(c0).take(x as int).push(c0[x as int].2));
            assert(str_views(queue@) =~= str_views(before).push(crates@[x as int].package_id@));
        }
        x = x + 1;
    }
    proof {
        let qv = str_views(queue@);
        assert(crate_ids(c0).take(c0.len() as int) =~= crate_ids(c0));
        assert(c0.take(c0.len() as int) =~= c0);
        assert forall|y: int| 0 <= y < qv.len() implies reached(m, #[trigger] qv[y]) by {
            assert(crate_ids(c0).contains(qv[y]));
            let w = seq![qv[y]];
            assert(is_start(m, w[0]));
            assert(ext_walk(m, w));
        }
        assert forall|b: Seq<char>| #[trigger] is_start(m, b) implies qv.contains(b) by {
            let k = choose|k: int| 0 <= k < ee.len() && (#[trigger] ee[k]).pkg == b;
        }
        assert(queue_ok(m, ids, c0, qv, crates@.map_values(|c: ExternalCrateInfo| crate_view(c))));
    }
    let mut deps: Vec<ExternalDep> = Vec::new();
    let mut k: usize = 0;
    while k < queue.len()
        invariant
            m == *metadata,
            metadata.resolve == Some(*resolve),
            nodes == resolve.nodes,
            ids == metadata.packages@.map_values(|p: Package| p.id@),
            ee == external_edges(m),
            c0 == crates_of(ee),
            k <= queue@.len(),
            queue_ok(m, ids, c0, str_views(queue@), crates@.map_values(|c: ExternalCrateInfo| crate_view(c))),
            seen@ == str_views(queue@).to_set(),
            forall|y: int|
                0 <= y < k ==> done_upto(
                    m,
                    str_views(queue@),
                    #[trigger] str_views(queue@)[y],
                    ext_views(deps@),
                    nodes@.len() as int,
                    0,
                ),
            deps_sound(m, ext_views(deps@)),
        decreases c0.len() + ids.len() - k,
    {
        let a = queue[k].clone();
        let ghost av = a@;
        assert(str_views(queue@)[k as int] == av);
        let mut i: usize = 0;
        while i < nodes.len()
            invariant
                m == *metadata,
                metadata.resolve == Some(*resolve),
                nodes == resolve.nodes,
                ids == metadata.packages@.map_values(|p: Package| p.id@),
                ee == external_edges(m),
                c0 == crates_of(ee),
                k < queue@.len(),
                a@ == av,
                str_views(queue@)[k as int] == av,
                i <= nodes@.len(),
                queue_ok(m, ids, c0, str_views(queue@), crates@.map_values(|c: ExternalCrateInfo| crate_view(c))),
                seen@ == str_views(queue@).to_set(),
                forall|y: int|
                    0 <= y < k ==> done_upto(
                        m,
                        str_views(queue@),
                        #[trigger] str_views(queue@)[y],
                        ext_views(deps@),
                        nodes@.len() as int,
                        0,
                    ),
                done_upto(m, str_views(queue@), av, ext_views(deps@), i as int, 0),
                deps_sound(m, ext_views(deps@)),
            decreases nodes.len() - i,
        {
            let node = &nodes[i];
            if crate::collections::str_eq(node.id.as_str(), a.as_str()) {
                let mut j: usize = 0;
                while j < node.deps.len()
                    invariant
                        m == *metadata,
                        metadata.resolve == Some(*resolve),
                        nodes == resolve.nodes,
                        *node == nodes@[i as int],
                        node.id@ == av,
                        ids == metadata.packages@.map_values(|p: Package| p.id@),
                        ee == external_edges(m),
                        c0 == crates_of(ee),
                        k < queue@.len(),
                        a@ == av,
                        str_views(queue@)[k as int] == av,
                        i < nodes@.len(),
                        j <= node.deps@.len(),
                        queue_ok(m, ids, c0, str_views(queue@), crates@.map_values(|c: ExternalCrateInfo| crate_view(c))),
                        seen@ == str_views(queue@).to_set(),
                        forall|y: int|
                            0 <= y < k ==> done_upto(
                                m,
                                str_views(queue@),
                                #[trigger] str_views(queue@)[y],
                                ext_views(deps@),
                                nodes@.len() as int,
                                0,
                            ),
                        done_upto(m, str_views(queue@), av, ext_views(deps@), i as int, j as int),
                        deps_sound(m, ext_views(deps@)),
                    decreases node.deps.len() - j,
                {
                    let dep = &node.deps[j];
                    let kinds = keep_followed(&dep.dep_kinds);
                    let ghost q0 = str_views(queue@);
                    let ghost d0 = ext_views(deps@);
                    let mut taken = false;
                    if kinds.len() > 0 {
                        match find_package(&metadata.packages, dep.pkg.as_str()) {
                            Some(p) => {
                                let pkg = &metadata.packages[p];
                                if pkg.source.is_some() {
                                    proof {
                                        lemma_last_package_index(metadata.packages@, dep.pkg@, metadata.packages@.len() as int);
                                        assert(pkg.id@ == dep.pkg@);
                                        assert(package_of(metadata.packages@, dep.pkg@) == Some(*pkg));
                                        assert(ext_dep_at(m, i as int, j as int));
                                        assert(ext_dep_view(m, i as int, j as int) == (av, dep.pkg@, kinds@));
                                        assert(ext_step(m, av, dep.pkg@));
                                        assert(reached(m, av)) by {
                                            assert(str_views(queue@)[k as int] == av);
                                        }
                                    }
                                    let ghost view = ext_dep_view(m, i as int, j as int);
                                    push_ext_dep(&mut deps, a.clone(), dep.pkg.clone(), kinds, Ghost(m), Ghost(i as int), Ghost(j as int));
                                    proof {
                                        let ds = ext_views(deps@);
                                        assert(ds == d0.push(view));
                                        assert forall|d: int| 0 <= d < ds.len() implies exists|i2: int, j2: int|
                                            #[trigger] ext_dep_at(m, i2, j2) && #[trigger] ds[d] == ext_dep_view(m, i2, j2) && reached(m, ext_dep_view(m, i2, j2).0) by {
                                            if d < d0.len() {
                                                assert(ds[d] == d0[d]);
                                            } else {
                                                assert(ds[d] == ext_dep_view(m, i as int, j as int));
                                            }
                                        }
                                        assert(ds.contains(view)) by {
                                            assert(ds[ds.len() - 1] == view);
                                        }
                                    }
                                    if !seen.contains(dep.pkg.as_str()) {
                                        let ghost cb = crates@.map_values(|c: ExternalCrateInfo| crate_view(c));
                                        let ghost qb = queue@;
                                        seen.insert(dep.pkg.clone());
                                        queue.push(dep.pkg.clone());
                                        crates.push(
                                            ExternalCrateInfo {
                                                name: pkg.name.clone(),
                                                version: pkg.version.clone(),
                                                package_id: pkg.id.clone(),
                                            },
                                        );
                                        proof {
                                            assert(str_views(queue@) =~= q0.push(dep.pkg@));
                                            assert(crates@.map_values(|c: ExternalCrateInfo| crate_view(c)) =~= cb.push(
                                                (pkg.name@, pkg.version@, dep.pkg@),
                                            ));
                                            lemma_queue_push(m, ids, c0, q0, cb, av, dep.pkg@, *pkg);
                                            assert(seen@ =~= str_views(queue@).to_set()) by {
                                                q0.lemma_push_to_set_commute(dep.pkg@);
                                            }
                                            assert(str_views(queue@)[k as int] == q0[k as int]);
                                        }
                                    } else {
                                        assert(q0.to_set().contains(dep.pkg@));
                                    }
                                    taken = true;
                                    proof {
                                        assert(str_views(queue@).contains(dep.pkg@)) by {
                                            if !q0.contains(dep.pkg@) {
                                                assert(str_views(queue@)[str_views(queue@).len() - 1] == dep.pkg@);
                                            }
                                        }
                                    }
                                }
                            },
                            None => {},
                        }
                    }
                    proof {
                        let q1 = str_views(queue@);
                        let d1 = ext_views(deps@);
                        assert(forall|pp: Seq<char>| q0.contains(pp) ==> q1.contains(pp)) by {
                            assert forall|pp: Seq<char>| q0.contains(pp) implies q1.contains(pp) by {
                                let u = choose|u: int| 0 <= u < q0.len() && q0[u] == pp;
                                assert(q1[u] == q0[u]);
                            }
                        }
                        assert(forall|v: (Seq<char>, Seq<char>, Seq<DependencyKind>)| d0.contains(v) ==> d1.contains(v)) by {
                            assert forall|v: (Seq<char>, Seq<char>, Seq<DependencyKind>)| d0.contains(v) implies d1.contains(v) by {
                                let u = choose|u: int| 0 <= u < d0.len() && d0[u] == v;
                                assert(d1[u] == d0[u]);
                            }
                        }
                        lemma_done_grow(m, q0, q1, av, d0, d1, i as int, j as int);
                        assert forall|y: int| 0 <= y < k implies done_upto(
                            m,
                            q1,
                            #[trigger] q1[y],
                            d1,
                            nodes@.len() as int,
                            0,
                        ) by {
                            assert(q1[y] == q0[y]);
                            lemma_done_grow(m, q0, q1, q0[y], d0, d1, nodes@.len() as int, 0);
                        }
                        if !taken {
                            assert(!ext_dep_at(m, i as int, j as int)) by {
                                if ext_dep_at(m, i as int, j as int) {
                                    lemma_last_package_index(metadata.packages@, dep.pkg@, metadata.packages@.len() as int);
                                }
                            }
                        }
                        assert(done_upto(m, q1, av, d1, i as int, j + 1));
                    }
                    j = j + 1;
                }
                proof {
                    assert(done_upto(m, str_views(queue@), av, ext_views(deps@), i + 1, 0));
                }
            } else {
                proof {
                    assert(done_upto(m, str_views(queue@), av, ext_views(deps@), i + 1, 0));
                }
            }
            i = i + 1;
        }
        proof {
            let qv = str_views(queue@);
            assert forall|y: int| 0 <= y < k + 1 implies done_upto(
                m,
                qv,
                #[trigger] qv[y],
                ext_views(deps@),
                nodes@.len() as int,
                0,
            ) by {
            }
        }
        k = k + 1;
    }
    proof {
        let qv = str_views(queue@);
        let ds = ext_views(deps@);
        assert forall|a: Seq<char>, b: Seq<char>| qv.contains(a) && #[trigger] ext_step(m, a, b) implies qv.contains(b) by {
            let y = choose|y: int| 0 <= y < qv.len() && qv[y] == a;
            assert(done_upto(m, qv, qv[y], ds, nodes@.len() as int, 0));
            let (i2, j2) = choose|i2: int, j2: int| #[trigger] ext_dep_at(m, i2, j2) && ext_dep_view(m, i2, j2).0 == a && ext_dep_view(m, i2, j2).1 == b;
        }
        assert forall|b: Seq<char>| reached(m, b) implies qv.contains(b) by {
            let w = choose|w: Seq<Seq<char>>| #[trigger] ext_walk(m, w) && w.last() == b;
            lemma_walk_closed(m, qv, w);
        }
        let cv = crates@.map_values(|c: ExternalCrateInfo| crate_view(c));
        assert forall|i2: int, j2: int|
            #[trigger] ext_dep_at(m, i2, j2) && reached(m, ext_dep_view(m, i2, j2).0) implies ds.contains(ext_dep_view(m, i2, j2)) by {
            assert(qv.contains(ext_dep_view(m, i2, j2).0));
            let y = choose|y: int| 0 <= y < qv.len() && qv[y] == ext_dep_view(m, i2, j2).0;
            assert(done_upto(m, qv, qv[y], ds, nodes@.len() as int, 0));
        }
        assert forall|p: Seq<char>| crate_ids(cv).contains(p) <==> reached(m, p) by {
            if crate_ids(cv).contains(p) {
                let y = choose|y: int| 0 <= y < qv.len() && qv[y] == p;
            }
        }
    }
    deps
}

/// Append one dependency between external crates.
fn push_ext_dep(
    deps: &mut Vec<ExternalDep>,
    from: String,
    to: String,
    kinds: Vec<DependencyKind>,
    Ghost(m): Ghost<Metadata>,
    Ghost(i): Ghost<int>,
    Ghost(j): Ghost<int>,
)
    requires
        ext_dep_at(m, i, j),
        (from@, to@, kinds@) == ext_dep_view(m, i, j),
    ensures
        final(deps)@ == old(deps)@.push(ExternalDep { from_pkg_id: from, to_pkg_id: to, dep_kinds: kinds }),
        ext_views(final(deps)@) == ext_views(old(deps)@).push(ext_dep_view(m, i, j)),
{
    let ghost before = deps@;
    deps.push(ExternalDep { from_pkg_id: from, to_pkg_id: to, dep_kinds: kinds });
    assert(ext_views(deps@) =~= ext_views(before).push(ext_dep_view(m, i, j)));
}

/// What the crates list holds when transitive dependencies are followed: the
/// direct external dependencies' crates first, as without, then one entry
/// per further reached package, with its name and version; a package id is
/// listed exactly when the workspace reaches it.
pub open spec fn transitive_crates(m: Metadata, cs: Seq<(Seq<char>, Seq<char>, Seq<char>)>) -> bool {
    let c0 = crates_of(external_edges(m));
    &&& c0.len() <= cs.len()
    &&& cs.take(c0.len() as int) == c0
    &&& crate_ids(cs).no_duplicates()
    &&& forall|p: Seq<char>| crate_ids(cs).contains(p) <==> reached(m, p)
    &&& forall|y: int|
        c0.len() <= y < cs.len() ==> (#[trigger] package_of(m.packages@, cs[y].2)) is Some && cs[y] == (package_of(
            m.packages@,
            cs[y].2,
        )->0.name@, package_of(m.packages@, cs[y].2)->0.version@, cs[y].2)
}

/// What the dependencies between external crates hold when they are
/// followed: each is a followed dependency of a reached package on an
/// external package, and every such dependency is listed.
pub open spec fn transitive_deps(m: Metadata, ds: Seq<(Seq<char>, Seq<char>, Seq<DependencyKind>)>) -> bool {
    &&& deps_sound(m, ds)
    &&& forall|i: int, j: int|
        #[trigger] ext_dep_at(m, i, j) && reached(m, ext_dep_view(m, i, j).0) ==> ds.contains(ext_dep_view(m, i, j))
}

/// The names of the first `k` dependencies of `kind` that name a workspace
/// member, in order.
pub open spec fn member_deps_of(deps: Seq<(String, DependencyKind)>, members: Set<Seq<char>>, kind: DependencyKind, k: int) -> Seq<
    Seq<char>,
>
    decreases k,
{
    if k <= 0 || k > deps.len() {
        Seq::empty()
    } else if deps[k - 1].1 == kind && members.contains(deps[k - 1].0@) {
        member_deps_of(deps, members, kind, k - 1).push(deps[k - 1].0@)
    } else {
        member_deps_of(deps, members, kind, k - 1)
    }
}

/// The names of a package's dependencies of `kind` that are workspace
/// members, in the order the manifest lists them.
pub fn member_dependencies(deps: &Vec<(String, DependencyKind)>, members: &StrSet, kind: DependencyKind) -> (res: Vec<String>)
    ensures
        res@.map_values(|x: String| x@) == member_deps_of(deps@, members@, kind, deps@.len() as int),
{
    let mut res: Vec<String> = Vec::new();
    let mut i: usize = 0;
    while i < deps.len()
        invariant
            i <= deps@.len(),
            res@.map_values(|x: String| x@) == member_deps_of(deps@, members@, kind, i as int),
        decreases deps.len() - i,
    {
        let (name, k) = (&deps[i].0, deps[i].1);
        let ghost before = res@;
        if k == kind && members.contains(name.as_str()) {
            res.push(name.clone());
            assert(res@.map_values(|x: String| x@) =~= before.map_values(|x: String| x@).push(name@));
        }
        i = i + 1;
    }
    res
}

} // verus!
