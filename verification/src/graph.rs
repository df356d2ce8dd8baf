//! The nodes and edges of the workspace dependency graph, what each kind
//! of edge stands for, and the queries the layout and the diagnoses ask of
//! the graph.

pub mod builder;
pub mod limits;
pub mod nesting;

use std::collections::{HashMap, HashSet};

use petgraph::graph::{DiGraph, NodeIndex};
use vstd::prelude::*;

use crate::digraph::{
    add_index_node, add_unit_edge, edge_list, edges_within, has_edge, is_walk, new_index_graph,
    node_weights, reach_marks, reached_from, reaches, step,
};
use crate::model::{EdgeContext, UsageKind};
use crate::text::{chars_of, colons, join_colons, join_on_colons, string_of};

verus! {

broadcast use vstd::std_specs::hash::group_hash_axioms;

/// Where an edge of the graph is written: a file and a line, the symbols
/// named there, the module they come from, and whether every reference
/// there is a `pub use` re-export.
#[derive(Debug)]
pub struct SourceLocation {
    pub file: String,
    pub line: usize,
    pub symbols: Vec<String>,
    pub module: String,
    pub via_reexport: bool,
}

/// A node of the graph.
#[derive(Debug)]
pub enum Node {
    Crate { name: String, path: String },
    Module { name: String, crate_idx: usize },
    ExternalCrate {
        name: String,
        version: String,
        package_id: String,
        is_direct_dependency: bool,
    },
}

impl Node {
    /// Whether this is a workspace crate.
    pub fn is_crate(&self) -> (res: bool)
        ensures
            res == (self is Crate),
    {
        matches!(self, Node::Crate { .. })
    }

    /// Whether this is an external crate.
    pub fn is_external(&self) -> (res: bool)
        ensures
            res == (self is ExternalCrate),
    {
        matches!(self, Node::ExternalCrate { .. })
    }

    /// Whether this is a module.
    pub fn is_module(&self) -> (res: bool)
        ensures
            res == (self is Module),
    {
        matches!(self, Node::Module { .. })
    }

    /// The node's name.
    pub fn name(&self) -> (res: &str)
        ensures
            res@ == match self {
                Node::Crate { name, .. } => name@,
                Node::Module { name, .. } => name@,
                Node::ExternalCrate { name, .. } => name@,
            },
    {
        match self {
            Node::Crate { name, .. } => name.as_str(),
            Node::Module { name, .. } => name.as_str(),
            Node::ExternalCrate { name, .. } => name.as_str(),
        }
    }
}

/// An edge of the graph.
#[derive(Debug)]
pub enum Edge {
    CrateDep { context: EdgeContext },
    ModuleDep { locations: Vec<SourceLocation>, context: EdgeContext },
    Contains,
    /// A workspace dev-dependency the current view does not show. Nothing
    /// renders it; reachability needs it to tell test infrastructure from a
    /// crate nobody depends on.
    DevDep,
}

/// The context of a dependency edge; `None` for `Contains` and `DevDep`.
pub open spec fn edge_context(e: Edge) -> Option<EdgeContext> {
    match e {
        Edge::CrateDep { context } => Some(context),
        Edge::ModuleDep { context, .. } => Some(context),
        _ => None,
    }
}

/// The kind of code a dependency edge stands in; `None` for `Contains` and
/// `DevDep`.
pub open spec fn edge_kind(e: Edge) -> Option<UsageKind> {
    match e {
        Edge::CrateDep { context } => Some(context.kind),
        Edge::ModuleDep { context, .. } => Some(context.kind),
        _ => None,
    }
}

/// A production dependency edge.
pub open spec fn edge_is_production(e: Edge) -> bool {
    edge_kind(e) == Some(UsageKind::Production)
}

/// A crate-level dependency, shown or not.
pub open spec fn edge_is_crate_dep(e: Edge) -> bool {
    e is CrateDep || e is DevDep
}

/// A production module dependency.
pub open spec fn edge_is_production_module_dep(e: Edge) -> bool {
    e is ModuleDep && edge_is_production(e)
}

/// A production module dependency every location of which is a re-export.
pub open spec fn edge_is_reexport_module_dep(e: Edge) -> bool {
    match e {
        Edge::ModuleDep { locations, context } => {
            &&& context.kind == UsageKind::Production
            &&& locations@.len() > 0
            &&& forall|i: int| 0 <= i < locations@.len() ==> (#[trigger] locations@[i]).via_reexport
        },
        _ => false,
    }
}

/// A production crate dependency.
pub open spec fn edge_is_production_crate_dep(e: Edge) -> bool {
    e is CrateDep && edge_is_production(e)
}

/// A crate dependency seen from tests.
pub open spec fn edge_is_test_crate_dep(e: Edge) -> bool {
    e is CrateDep && edge_kind(e) matches Some(UsageKind::Test(_))
}

impl Edge {
    /// The edge's context, for a dependency edge.
    pub fn context(&self) -> (res: Option<&EdgeContext>)
        ensures
            res matches Some(c) ==> edge_context(*self) == Some(*c),
            res is None ==> edge_context(*self) is None,
    {
        match self {
            Edge::CrateDep { context } => Some(context),
            Edge::ModuleDep { context, .. } => Some(context),
            Edge::Contains => None,
            Edge::DevDep => None,
        }
    }

    /// Whether this edge is a crate-level dependency, shown or not.
    pub fn is_crate_dep(&self) -> (res: bool)
        ensures
            res == edge_is_crate_dep(*self),
    {
        matches!(self, Edge::CrateDep { .. } | Edge::DevDep)
    }

    /// Whether this edge represents a production dependency.
    pub fn is_production(&self) -> (res: bool)
        ensures
            res == edge_is_production(*self),
    {
        match self.context() {
            Some(c) => c.kind == UsageKind::Production,
            None => false,
        }
    }

    /// Whether this is a production module dependency.
    pub fn is_production_module_dep(&self) -> (res: bool)
        ensures
            res == edge_is_production_module_dep(*self),
    {
        match self {
            Edge::ModuleDep { context, .. } => context.kind == UsageKind::Production,
            _ => false,
        }
    }

    /// Whether this is a production module dependency whose locations are
    /// all `pub use` re-exports: it republishes names without behavioural
    /// coupling.
    #[verifier::loop_isolation(false)]
    pub fn is_reexport_module_dep(&self) -> (res: bool)
        ensures
            res == edge_is_reexport_module_dep(*self),
    {
        match self {
            Edge::ModuleDep { locations, context } => {
                if context.kind != UsageKind::Production || locations.len() == 0 {
                    return false;
                }
                let mut i: usize = 0;
                while i < locations.len()
                    invariant
                        i <= locations@.len(),
                        forall|j: int| 0 <= j < i ==> (#[trigger] locations@[j]).via_reexport,
                    decreases locations.len() - i,
                {
                    if !locations[i].via_reexport {
                        assert(!locations@[i as int].via_reexport);
                        return false;
                    }
                    i = i + 1;
                }
                true
            },
            _ => false,
        }
    }

    /// Whether this is a production crate dependency.
    pub fn is_production_crate_dep(&self) -> (res: bool)
        ensures
            res == edge_is_production_crate_dep(*self),
    {
        match self {
            Edge::CrateDep { context } => context.kind == UsageKind::Production,
            _ => false,
        }
    }

    /// Whether this is a crate dependency seen from tests.
    pub fn is_test_crate_dep(&self) -> (res: bool)
        ensures
            res == edge_is_test_crate_dep(*self),
    {
        match self {
            Edge::CrateDep { context } => matches!(context.kind, UsageKind::Test(_)),
            _ => false,
        }
    }
}

/// How the edge kinds nest: a re-export module dependency is a production
/// module dependency, which is a production dependency; a production crate
/// dependency is a crate dependency and a production one; a test crate
/// dependency is a crate dependency and no production one; `Contains` is
/// none of them.
pub proof fn lemma_edge_kinds_nest(e: Edge)
    ensures
        edge_is_reexport_module_dep(e) ==> edge_is_production_module_dep(e),
        edge_is_production_module_dep(e) ==> edge_is_production(e),
        edge_is_production_crate_dep(e) ==> edge_is_crate_dep(e) && edge_is_production(e),
        edge_is_test_crate_dep(e) ==> edge_is_crate_dep(e) && !edge_is_production(e),
        !(edge_is_production_module_dep(e) && edge_is_crate_dep(e)),
        e is Contains ==> !edge_is_production(e) && !edge_is_crate_dep(e),
{
}

/// Whether `pub use` re-export edges take part in cycle detection.
#[derive(Clone, Copy, Debug, PartialEq, Eq, Structural)]
pub enum Reexports {
    Included,
    Excluded,
}

impl Reexports {
    /// `--include-reexports` maps to `Included`.
    pub fn from(include_reexports: bool) -> (res: Self)
        ensures
            res == (if include_reexports { Reexports::Included } else { Reexports::Excluded }),
    {
        if include_reexports {
            Reexports::Included
        } else {
            Reexports::Excluded
        }
    }
}

/// The nodes of an arc graph, by index.
pub uninterp spec fn arc_nodes(g: DiGraph<Node, Edge>) -> Seq<Node>;

/// The edges of an arc graph as `(source, target, weight)`, by index.
pub uninterp spec fn arc_edges(g: DiGraph<Node, Edge>) -> Seq<(usize, usize, Edge)>;

/// Whether every edge's ends are among the first `n` nodes.
pub open spec fn arc_edges_within(edges: Seq<(usize, usize, Edge)>, n: nat) -> bool {
    forall|k: int| 0 <= k < edges.len() ==> (#[trigger] edges[k]).0 < n && edges[k].1 < n
}

/// `DiGraph::new`: a graph without nodes or edges.
#[verifier::external_body]
fn arc_new() -> (g: DiGraph<Node, Edge>)
    ensures
        arc_nodes(g) == Seq::<Node>::empty(),
        arc_edges(g) == Seq::<(usize, usize, Edge)>::empty(),
{
    DiGraph::new()
}

/// `Graph::add_node`: the node is added last. The graph holds fewer than
/// `u32::MAX` nodes (it panics at the limit).
#[verifier::external_body]
fn arc_add_node(g: &mut DiGraph<Node, Edge>, n: Node) -> (i: usize)
    requires
        arc_nodes(*old(g)).len() < 4294967295,
    ensures
        arc_nodes(*final(g)) == arc_nodes(*old(g)).push(n),
        arc_edges(*final(g)) == arc_edges(*old(g)),
        i == arc_nodes(*old(g)).len(),
{
    g.add_node(n).index()
}

/// `Graph::add_edge`: the edge is added last. Both nodes exist (it panics
/// otherwise) and the graph holds fewer than `u32::MAX` edges.
#[verifier::external_body]
fn arc_add_edge(g: &mut DiGraph<Node, Edge>, a: usize, b: usize, e: Edge)
    requires
        a < arc_nodes(*old(g)).len(),
        b < arc_nodes(*old(g)).len(),
        arc_edges(*old(g)).len() < 4294967295,
    ensures
        arc_nodes(*final(g)) == arc_nodes(*old(g)),
        arc_edges(*final(g)) == arc_edges(*old(g)).push((a, b, e)),
{
    g.add_edge(NodeIndex::new(a), NodeIndex::new(b), e);
}

/// `Graph::node_count`. The graph admits no edge whose ends are not among
/// its nodes (`add_edge` panics on such).
#[verifier::external_body]
fn arc_node_count(g: &DiGraph<Node, Edge>) -> (n: usize)
    ensures
        n == arc_nodes(*g).len(),
        arc_edges_within(arc_edges(*g), n as nat),
{
    g.node_count()
}

/// `Graph::edge_count`.
#[verifier::external_body]
fn arc_edge_count(g: &DiGraph<Node, Edge>) -> (n: usize)
    ensures
        n == arc_edges(*g).len(),
{
    g.edge_count()
}

/// `graph[NodeIndex::new(i)]`: the weight of node `i`.
#[verifier::external_body]
fn arc_node(g: &DiGraph<Node, Edge>, i: usize) -> (n: &Node)
    requires
        i < arc_nodes(*g).len(),
    ensures
        *n == arc_nodes(*g)[i as int],
{
    &g[NodeIndex::new(i)]
}

/// `Graph::raw_edges()[k]`: the ends and weight of edge `k`.
#[verifier::external_body]
fn arc_edge(g: &DiGraph<Node, Edge>, k: usize) -> (e: (usize, usize, &Edge))
    requires
        k < arc_edges(*g).len(),
    ensures
        (e.0, e.1, *e.2) == arc_edges(*g)[k as int],
{
    let edge = &g.raw_edges()[k];
    (edge.source().index(), edge.target().index(), &edge.weight)
}

/// `Graph::find_edge`: an edge from `a` to `b` where there is one. Both
/// ends must be nodes of the graph, whose indices then fit the graph's `u32`
/// index type unchanged.
#[verifier::external_body]
fn arc_find_edge(g: &DiGraph<Node, Edge>, a: usize, b: usize) -> (res: Option<usize>)
    requires
        a < arc_nodes(*g).len(),
        b < arc_nodes(*g).len(),
    ensures
        match res {
            Some(k) => k < arc_edges(*g).len() && arc_edges(*g)[k as int].0 == a && arc_edges(*g)[k as int].1 == b,
            None => !edge_between(arc_edges(*g), a, b),
        },
{
    g.find_edge(NodeIndex::new(a), NodeIndex::new(b)).map(|e| e.index())
}

/// Whether some edge runs from `a` to `b`.
pub open spec fn edge_between(edges: Seq<(usize, usize, Edge)>, a: usize, b: usize) -> bool {
    exists|k: int| 0 <= k < edges.len() && (#[trigger] edges[k]).0 == a && edges[k].1 == b
}

/// The reference sites an edge carries: its locations where it is a module
/// dependency.
pub open spec fn refs_of_edge(e: Edge) -> nat {
    match e {
        Edge::ModuleDep { locations, .. } => locations@.len(),
        _ => 0,
    }
}

/// Whether `r` is the reference count of an edge from `a` to `b`: that of
/// one of them, or zero where there is none.
pub open spec fn refs_between(edges: Seq<(usize, usize, Edge)>, a: usize, b: usize, r: nat) -> bool {
    if edge_between(edges, a, b) {
        exists|k: int| 0 <= k < edges.len() && (#[trigger] edges[k]).0 == a && edges[k].1 == b && r == refs_of_edge(edges[k].2)
    } else {
        r == 0
    }
}

/// How willing a cut is to remove an edge, by the way it runs through the
/// module tree; worst candidate first.
#[derive(Clone, Copy, Debug, PartialEq, Eq, Structural)]
pub enum CutBias {
    /// Parent to child, or a child re-exporting its parent: spelling out
    /// the module tree, which nobody can remove.
    Skeletal,
    /// Neither module is the other's direct parent.
    Neutral,
    /// Child to parent, no re-export: the direction a developer can break.
    Preferred,
}

/// The rank of a bias, worst first.
pub open spec fn bias_rank(b: CutBias) -> int {
    match b {
        CutBias::Skeletal => 0,
        CutBias::Neutral => 1,
        CutBias::Preferred => 2,
    }
}

/// Whether `bias` is how the edge `a -> b` runs through the module tree:
/// structural where `a` contains `b`; where `b` contains `a`, structural
/// if the edge (one of them, where there are several) is a pure re-export
/// and preferred otherwise; neutral else.
pub open spec fn bias_of(edges: Seq<(usize, usize, Edge)>, a: usize, b: usize, bias: CutBias) -> bool {
    if has_contains(edges, a, b) {
        bias == CutBias::Skeletal
    } else if has_contains(edges, b, a) {
        if edge_between(edges, a, b) {
            exists|k: int|
                0 <= k < edges.len() && (#[trigger] edges[k]).0 == a && edges[k].1 == b && bias == (if edge_is_reexport_module_dep(edges[k].2) {
                    CutBias::Skeletal
                } else {
                    CutBias::Preferred
                })
        } else {
            bias == CutBias::Preferred
        }
    } else {
        bias == CutBias::Neutral
    }
}

/// The workspace dependency graph: crates, modules and external crates,
/// with containment and dependency edges.
#[derive(Debug)]
pub struct ArcGraph(pub DiGraph<Node, Edge>);

/// Whether an edge takes part in cycle detection: a production module
/// dependency, and not a pure re-export unless re-exports are included.
pub open spec fn kept_for_cycles(e: Edge, reexports: Reexports) -> bool {
    edge_is_production_module_dep(e) && (reexports == Reexports::Included || !edge_is_reexport_module_dep(e))
}

/// The edges of the first `k` that take part in cycle detection, as pairs.
pub open spec fn cycle_pairs(edges: Seq<(usize, usize, Edge)>, reexports: Reexports, k: int) -> Seq<(usize, usize)>
    decreases k,
{
    if k <= 0 || k > edges.len() {
        Seq::empty()
    } else if kept_for_cycles(edges[k - 1].2, reexports) {
        cycle_pairs(edges, reexports, k - 1).push((edges[k - 1].0, edges[k - 1].1))
    } else {
        cycle_pairs(edges, reexports, k - 1)
    }
}

/// The `Contains` edges of the first `k`, as pairs.
pub open spec fn contains_pairs(edges: Seq<(usize, usize, Edge)>, k: int) -> Seq<(usize, usize)>
    decreases k,
{
    if k <= 0 || k > edges.len() {
        Seq::empty()
    } else if edges[k - 1].2 is Contains {
        contains_pairs(edges, k - 1).push((edges[k - 1].0, edges[k - 1].1))
    } else {
        contains_pairs(edges, k - 1)
    }
}

/// The production crate dependencies of the first `k` edges that end at a
/// workspace crate, as pairs.
pub open spec fn crate_dep_pairs(nodes: Seq<Node>, edges: Seq<(usize, usize, Edge)>, k: int) -> Seq<(usize, usize)>
    decreases k,
{
    if k <= 0 || k > edges.len() {
        Seq::empty()
    } else if edge_is_production_crate_dep(edges[k - 1].2) && edges[k - 1].1 < nodes.len()
        && nodes[edges[k - 1].1 as int] is Crate {
        crate_dep_pairs(nodes, edges, k - 1).push((edges[k - 1].0, edges[k - 1].1))
    } else {
        crate_dep_pairs(nodes, edges, k - 1)
    }
}

/// Each child of a `Contains` edge among the first `k` mapped to its parent;
/// a later edge into the same child wins.
pub open spec fn parents_of(edges: Seq<(usize, usize, Edge)>, k: int) -> Map<usize, usize>
    decreases k,
{
    if k <= 0 || k > edges.len() {
        Map::empty()
    } else if edges[k - 1].2 is Contains {
        parents_of(edges, k - 1).insert(edges[k - 1].1, edges[k - 1].0)
    } else {
        parents_of(edges, k - 1)
    }
}

/// Whether `edges` hold a `Contains` edge from `parent` to `child`.
pub open spec fn has_contains(edges: Seq<(usize, usize, Edge)>, parent: usize, child: usize) -> bool {
    exists|k: int| 0 <= k < edges.len() && edges[k].0 == parent && edges[k].1 == child && (#[trigger] edges[k]).2 is Contains
}

/// The pairs of the first `k` edges a selection keeps are each one of them.
pub proof fn lemma_selected_pairs(edges: Seq<(usize, usize, Edge)>, k: int, n: nat)
    requires
        0 <= k <= edges.len(),
        arc_edges_within(edges, n),
    ensures
        edges_within(contains_pairs(edges, k), n),
        forall|a: usize, b: usize| #[trigger] has_edge(contains_pairs(edges, k), a, b) <==> exists|j: int|
            0 <= j < k && edges[j].0 == a && edges[j].1 == b && (#[trigger] edges[j]).2 is Contains,
    decreases k,
{
    if k > 0 {
        lemma_selected_pairs(edges, k - 1, n);
        let prev = contains_pairs(edges, k - 1);
        let cur = contains_pairs(edges, k);
        assert forall|a: usize, b: usize| #[trigger] has_edge(cur, a, b) <==> exists|j: int|
            0 <= j < k && edges[j].0 == a && edges[j].1 == b && (#[trigger] edges[j]).2 is Contains by {
            if has_edge(cur, a, b) {
                let q = choose|q: int| 0 <= q < cur.len() && cur[q] == (a, b);
                if q < prev.len() {
                    assert(prev[q] == cur[q]);
                    assert(has_edge(prev, a, b));
                } else {
                    assert(edges[k - 1].2 is Contains);
                    assert(edges[k - 1].0 == a && edges[k - 1].1 == b);
                }
            }
            if exists|j: int| 0 <= j < k && edges[j].0 == a && edges[j].1 == b && (#[trigger] edges[j]).2 is Contains {
                let j = choose|j: int| 0 <= j < k && edges[j].0 == a && edges[j].1 == b && (#[trigger] edges[j]).2 is Contains;
                if j < k - 1 {
                    assert(has_edge(prev, a, b));
                    let q = choose|q: int| 0 <= q < prev.len() && prev[q] == (a, b);
                    assert(cur[q] == (a, b));
                } else {
                    assert(cur[cur.len() - 1] == (a, b));
                }
            }
        }
        assert forall|q: int| 0 <= q < cur.len() implies (#[trigger] cur[q]).0 < n && cur[q].1 < n by {
            if q < prev.len() {
                assert(prev[q] == cur[q]);
            } else {
                assert(edges[k - 1].0 < n);
            }
        }
    }
}

/// The crate-dependency pairs of the first `k` edges are each one of them.
pub proof fn lemma_crate_dep_pairs(nodes: Seq<Node>, edges: Seq<(usize, usize, Edge)>, k: int, n: nat)
    requires
        0 <= k <= edges.len(),
        arc_edges_within(edges, n),
    ensures
        edges_within(crate_dep_pairs(nodes, edges, k), n),
    decreases k,
{
    if k > 0 {
        lemma_crate_dep_pairs(nodes, edges, k - 1, n);
        let prev = crate_dep_pairs(nodes, edges, k - 1);
        let cur = crate_dep_pairs(nodes, edges, k);
        assert forall|q: int| 0 <= q < cur.len() implies (#[trigger] cur[q]).0 < n && cur[q].1 < n by {
            if q < prev.len() {
                assert(prev[q] == cur[q]);
            } else {
                assert(edges[k - 1].0 < n);
            }
        }
    }
}

/// A walk from a node among the first `n` along edges within them ends
/// among them; from any other node it goes nowhere.
pub proof fn lemma_reach_bound(pairs: Seq<(usize, usize)>, n: nat, a: usize, b: usize)
    requires
        edges_within(pairs, n),
        reaches(pairs, a, b),
    ensures
        a < n ==> b < n,
        a >= n ==> b == a,
{
    let p = choose|p: Seq<usize>| #[trigger] is_walk(pairs, p) && p[0] == a && p.last() == b;
    if p.len() > 1 {
        assert(step(pairs, p, p.len() - 2));
        let k = choose|k: int| 0 <= k < pairs.len() && pairs[k] == (p[p.len() - 2], p.last());
        assert(pairs[k].1 < n);
        assert(step(pairs, p, 0));
        let k0 = choose|k0: int| 0 <= k0 < pairs.len() && pairs[k0] == (p[0], p[1]);
        assert(pairs[k0].0 < n);
    }
}

/// The members of `marks` that are set, as a set of indices.
fn marked_set(marks: &Vec<bool>) -> (res: HashSet<usize>)
    ensures
        forall|x: usize| res@.contains(x) <==> x < marks@.len() && marks@[x as int],
{
    let mut set: HashSet<usize> = HashSet::new();
    let mut i: usize = 0;
    while i < marks.len()
        invariant
            i <= marks@.len(),
            forall|x: usize| set@.contains(x) <==> x < i && marks@[x as int],
        decreases marks.len() - i,
    {
        if marks[i] {
            set.insert(i);
        }
        i = i + 1;
    }
    set
}

/// Whether node `i` is a workspace crate.
pub open spec fn is_crate_node(nodes: Seq<Node>, i: usize) -> bool {
    i < nodes.len() && nodes[i as int] is Crate
}

/// Whether some edge is a crate dependency seen from tests.
pub open spec fn has_test_crate_dep(edges: Seq<(usize, usize, Edge)>) -> bool {
    exists|k: int| 0 <= k < edges.len() && edge_is_test_crate_dep(#[trigger] edges[k].2)
}

/// Whether `c` has a `Contains` edge out.
pub open spec fn has_contains_out(edges: Seq<(usize, usize, Edge)>, c: usize) -> bool {
    exists|k: int| 0 <= k < edges.len() && (#[trigger] edges[k]).0 == c && edges[k].2 is Contains
}

/// Whether a crate dependency, shown or not, points at `c`.
pub open spec fn depended_upon(edges: Seq<(usize, usize, Edge)>, c: usize) -> bool {
    exists|k: int| 0 <= k < edges.len() && (#[trigger] edges[k]).1 == c && edge_is_crate_dep(edges[k].2)
}

/// Whether `c` depends on a workspace crate in production.
pub open spec fn uses_production(nodes: Seq<Node>, edges: Seq<(usize, usize, Edge)>, c: usize) -> bool {
    exists|k: int|
        0 <= k < edges.len() && (#[trigger] edges[k]).0 == c && edge_is_production_crate_dep(edges[k].2)
            && is_crate_node(nodes, edges[k].1)
}

/// Whether `c` is a workspace entry point: nothing depends on it, and it
/// depends on production code itself.
pub open spec fn is_entry(nodes: Seq<Node>, edges: Seq<(usize, usize, Edge)>, c: usize) -> bool {
    !depended_upon(edges, c) && uses_production(nodes, edges, c)
}

/// Whether some crate has modules.
pub open spec fn any_crate_has_modules(nodes: Seq<Node>, edges: Seq<(usize, usize, Edge)>) -> bool {
    exists|c: usize| #[trigger] is_crate_node(nodes, c) && has_contains_out(edges, c)
}

/// Whether `c` anchors production reachability: a crate with modules or an
/// entry point; every crate, where no crate has modules.
pub open spec fn is_anchor(nodes: Seq<Node>, edges: Seq<(usize, usize, Edge)>, c: usize) -> bool {
    is_crate_node(nodes, c) && (!any_crate_has_modules(nodes, edges) || has_contains_out(edges, c)
        || is_entry(nodes, edges, c))
}

/// The name of a node.
pub open spec fn node_name(n: Node) -> Seq<char> {
    match n {
        Node::Crate { name, .. } => name@,
        Node::Module { name, .. } => name@,
        Node::ExternalCrate { name, .. } => name@,
    }
}

/// The parent of `x` along the last of the first `k` `Contains` edges into it.
pub open spec fn container_upto(edges: Seq<(usize, usize, Edge)>, x: usize, k: int) -> Option<usize>
    decreases k,
{
    if k <= 0 || k > edges.len() {
        None
    } else if edges[k - 1].1 == x && edges[k - 1].2 is Contains {
        Some(edges[k - 1].0)
    } else {
        container_upto(edges, x, k - 1)
    }
}

/// The parent of `x` along the most recent `Contains` edge into it.
pub open spec fn container(edges: Seq<(usize, usize, Edge)>, x: usize) -> Option<usize> {
    container_upto(edges, x, edges.len() as int)
}

/// Whether `depth` ranks the first `n` nodes so that each node's container,
/// along its most recent `Contains` edge, is a shallower node: walking up
/// the containers never comes back.
pub open spec fn ranked(edges: Seq<(usize, usize, Edge)>, depth: Seq<nat>, n: nat) -> bool {
    &&& depth.len() == n
    &&& forall|x: usize|
        x < n ==> match #[trigger] container(edges, x) {
            Some(p) => p < n && depth[p as int] < depth[x as int],
            None => true,
        }
}

/// Whether containment among the first `n` nodes has no cycle.
pub open spec fn containment_acyclic(edges: Seq<(usize, usize, Edge)>, n: nat) -> bool {
    exists|depth: Seq<nat>| ranked(edges, depth, n)
}

/// A ranking of the nodes, where containment has no cycle.
pub open spec fn some_ranking(edges: Seq<(usize, usize, Edge)>, n: nat) -> Seq<nat> {
    choose|depth: Seq<nat>| ranked(edges, depth, n)
}

/// A container is one step shallower.
pub proof fn lemma_container(edges: Seq<(usize, usize, Edge)>, depth: Seq<nat>, n: nat, x: usize, k: int)
    requires
        ranked(edges, depth, n),
        k == edges.len(),
        x < n,
    ensures
        container_upto(edges, x, k) matches Some(p) ==> p < n && x < n && depth[p as int] < depth[x as int],
{
    assert(match container(edges, x) {
        Some(p) => p < n && depth[p as int] < depth[x as int],
        None => true,
    });
}

/// The names of the modules above `x`, innermost first, up to its crate,
/// and the crate's name where a crate contains them.
pub open spec fn ancestry(nodes: Seq<Node>, edges: Seq<(usize, usize, Edge)>, depth: Seq<nat>, x: usize) -> (
    Seq<Seq<char>>,
    Option<Seq<char>>,
)
    decreases depth[x as int],
    when ranked(edges, depth, nodes.len()) && x < nodes.len()
{
    match container(edges, x) {
        None => (Seq::empty(), None),
        Some(p) => {
            proof {
                lemma_container(edges, depth, nodes.len(), x, edges.len() as int);
            }
            if nodes[p as int] is Crate {
                (Seq::empty(), Some(node_name(nodes[p as int])))
            } else {
                let (up, c) = ancestry(nodes, edges, depth, p);
                (seq![node_name(nodes[p as int])] + up, c)
            }
        },
    }
}

/// `<crate>::<module::path>` of node `x`: its name and the names of the
/// modules above it, outermost first, after its crate's name where a crate
/// contains it.
pub open spec fn qualified(nodes: Seq<Node>, edges: Seq<(usize, usize, Edge)>, x: usize) -> Seq<char> {
    let (up, c) = ancestry(nodes, edges, some_ranking(edges, nodes.len()), x);
    let path = join_colons((seq![node_name(nodes[x as int])] + up).reverse());
    match c {
        Some(crate_name) => crate_name + colons() + path,
        None => path,
    }
}

/// The modules from `x` up, innermost first, while they are modules.
pub open spec fn module_chain(nodes: Seq<Node>, edges: Seq<(usize, usize, Edge)>, depth: Seq<nat>, x: usize) -> Seq<usize>
    decreases depth[x as int],
    when ranked(edges, depth, nodes.len()) && x < nodes.len()
{
    if !(nodes[x as int] is Module) {
        Seq::empty()
    } else {
        match container(edges, x) {
            None => seq![x],
            Some(p) => {
                proof {
                    lemma_container(edges, depth, nodes.len(), x, edges.len() as int);
                }
                seq![x] + module_chain(nodes, edges, depth, p)
            },
        }
    }
}

/// The module chain of `x` under the ranking.
pub open spec fn chain_of(nodes: Seq<Node>, edges: Seq<(usize, usize, Edge)>, x: usize) -> Seq<usize> {
    module_chain(nodes, edges, some_ranking(edges, nodes.len()), x)
}

/// The first module of `chain` that stands in the chain of each of
/// `others`.
pub open spec fn first_common(nodes: Seq<Node>, edges: Seq<(usize, usize, Edge)>, chain: Seq<usize>, others: Seq<usize>) -> Option<usize> {
    if exists|i: int| 0 <= i < chain.len() && #[trigger] common_at(nodes, edges, chain, others, i) {
        let i = choose|i: int| 0 <= i < chain.len() && #[trigger] common_at(nodes, edges, chain, others, i)
            && forall|j: int| 0 <= j < i ==> !common_at(nodes, edges, chain, others, j);
        Some(chain[i])
    } else {
        None
    }
}

/// Whether the `i`-th module of `chain` stands in the chain of each of
/// `others`.
pub open spec fn common_at(nodes: Seq<Node>, edges: Seq<(usize, usize, Edge)>, chain: Seq<usize>, others: Seq<usize>, i: int) -> bool {
    forall|o: int| 0 <= o < others.len() ==> #[trigger] chain_of(nodes, edges, others[o]).contains(chain[i])
}


/// The steps from `x` up its chain of containers to a node that has none,
/// taking at most `fuel` steps, each container among the first `n` nodes;
/// `None` where the chain goes on longer or leaves those nodes.
pub open spec fn climb(edges: Seq<(usize, usize, Edge)>, n: nat, x: usize, fuel: nat) -> Option<nat>
    decreases fuel,
{
    match container(edges, x) {
        None => Some(0),
        Some(p) => if p >= n || fuel == 0 {
            None
        } else {
            match climb(edges, n, p, (fuel - 1) as nat) {
                Some(d) => Some(d + 1),
                None => None,
            }
        },
    }
}

/// Whether every node's chain of containers ends within as many steps as
/// there are nodes.
pub open spec fn chains_end(edges: Seq<(usize, usize, Edge)>, n: nat) -> bool {
    forall|x: usize| x < n ==> (#[trigger] climb(edges, n, x, n)) is Some
}

/// More fuel reaches the same end.
pub proof fn lemma_climb_more(edges: Seq<(usize, usize, Edge)>, n: nat, x: usize, f: nat, g: nat)
    requires
        f <= g,
        climb(edges, n, x, f) is Some,
    ensures
        climb(edges, n, x, g) == climb(edges, n, x, f),
    decreases f,
{
    match container(edges, x) {
        None => {},
        Some(p) => {
            lemma_climb_more(edges, n, p, (f - 1) as nat, (g - 1) as nat);
        },
    }
}

/// Where every chain ends, the steps to its end rank the nodes.
pub proof fn lemma_chains_rank(edges: Seq<(usize, usize, Edge)>, n: nat)
    requires
        chains_end(edges, n),
    ensures
        containment_acyclic(edges, n),
{
    let depth = Seq::new(n, |x: int| climb(edges, n, x as usize, n)->0);
    assert forall|x: usize| x < n implies match #[trigger] container(edges, x) {
        Some(p) => p < n && depth[p as int] < depth[x as int],
        None => true,
    } by {
        assert(climb(edges, n, x, n) is Some);
        match container(edges, x) {
            Some(p) => {
                assert(p < n && n > 0);
                assert(climb(edges, n, p, (n - 1) as nat) is Some);
                lemma_climb_more(edges, n, p, (n - 1) as nat, n);
            },
            None => {},
        }
    }
    assert(ranked(edges, depth, n));
}


/// Where containment is ranked and a chain does not end within `f` steps,
/// it runs through `f + 1` nodes of strictly falling depth.
pub proof fn lemma_long_chain(edges: Seq<(usize, usize, Edge)>, depth: Seq<nat>, n: nat, x: usize, f: nat) -> (s: Seq<usize>)
    requires
        ranked(edges, depth, n),
        x < n,
        climb(edges, n, x, f) is None,
    ensures
        s.len() == f + 1,
        s[0] == x,
        forall|i: int| 0 <= i < s.len() ==> #[trigger] s[i] < n,
        forall|i: int, j: int| 0 <= i < j < s.len() ==> depth[#[trigger] s[j] as int] < depth[#[trigger] s[i] as int],
    decreases f,
{
    let p = container(edges, x)->0;
    assert(container(edges, x) matches Some(q) && q < n && depth[q as int] < depth[x as int]);
    if f == 0 {
        let s = seq![x];
        assert(s[0] == x);
        s
    } else {
        let t = lemma_long_chain(edges, depth, n, p, (f - 1) as nat);
        let s = seq![x] + t;
        assert forall|i: int| 0 <= i < s.len() implies #[trigger] s[i] < n by {
            if i > 0 {
                assert(s[i] == t[i - 1]);
            }
        }
        assert forall|i: int, j: int| 0 <= i < j < s.len() implies depth[#[trigger] s[j] as int] < depth[#[trigger] s[i] as int] by {
            assert(s[j] == t[j - 1]);
            if i > 0 {
                assert(s[i] == t[i - 1]);
            } else {
                if j - 1 > 0 {
                    assert(depth[t[j - 1] as int] < depth[t[0] as int]);
                }
            }
        }
        s
    }
}

/// No more than `n` distinct nodes lie below `n`.
pub proof fn lemma_distinct_below(s: Seq<usize>, n: nat)
    requires
        s.no_duplicates(),
        forall|i: int| 0 <= i < s.len() ==> #[trigger] s[i] < n,
    ensures
        s.len() <= n,
{
    let t = s.map_values(|v: usize| v as int);
    assert(t.no_duplicates()) by {
        assert forall|i: int, j: int| 0 <= i < t.len() && 0 <= j < t.len() && i != j implies t[i] != t[j] by {
            assert(s[i] != s[j]);
        }
    }
    t.unique_seq_to_set();
    vstd::set_lib::lemma_int_range(0, n as int);
    assert(t.to_set().subset_of(vstd::set_lib::set_int_range(0, n as int))) by {
        assert forall|v: int| t.to_set().contains(v) implies vstd::set_lib::set_int_range(0, n as int).contains(v) by {
            let i = choose|i: int| 0 <= i < t.len() && t[i] == v;
            assert(s[i] < n);
        }
    }
    vstd::set_lib::lemma_len_subset(t.to_set(), vstd::set_lib::set_int_range(0, n as int));
}

/// Containment without a cycle has every chain end within as many steps as
/// there are nodes.
pub proof fn lemma_acyclic_chains_end(edges: Seq<(usize, usize, Edge)>, n: nat)
    requires
        containment_acyclic(edges, n),
    ensures
        chains_end(edges, n),
{
    let depth = choose|depth: Seq<nat>| ranked(edges, depth, n);
    assert forall|x: usize| x < n implies (#[trigger] climb(edges, n, x, n)) is Some by {
        if climb(edges, n, x, n) is None {
            let s = lemma_long_chain(edges, depth, n, x, n);
            assert(s.no_duplicates()) by {
                assert forall|i: int, j: int| 0 <= i < s.len() && 0 <= j < s.len() && i != j implies s[i] != s[j] by {
                    if i < j {
                        assert(depth[s[j] as int] < depth[s[i] as int]);
                    } else {
                        assert(depth[s[i] as int] < depth[s[j] as int]);
                    }
                }
            }
            lemma_distinct_below(s, n);
        }
    }
}

impl ArcGraph {
    /// Whether containment has no cycle: every node's chain of containers,
    /// along the most recent `Contains` edge into each, ends.
    pub fn containment_is_acyclic(&self) -> (res: bool)
        ensures
            res == containment_acyclic(self.edge_seq(), self.nodes().len()),
    {
        let n = self.node_count();
        let m = self.edge_count();
        let ghost edges = self.edge_seq();
        let mut parent: Vec<Option<usize>> = Vec::new();
        let mut x: usize = 0;
        while x < n
            invariant
                x <= n,
                parent@.len() == x,
                forall|q: int| 0 <= q < x ==> (#[trigger] parent@[q]) is None,
            decreases n - x,
        {
            parent.push(None);
            x = x + 1;
        }
        let mut k: usize = 0;
        while k < m
            invariant
                n == self.nodes().len(),
                m == edges.len(),
                edges == self.edge_seq(),
                arc_edges_within(edges, n as nat),
                k <= m,
                parent@.len() == n,
                forall|q: usize| q < n ==> #[trigger] parent@[q as int] == container_upto(edges, q, k as int),
            decreases m - k,
        {
            let (a, b, e) = self.edge(k);
            assert(edges[k as int].1 < n);
            if matches!(e, Edge::Contains) {
                parent.set(b, Some(a));
            }
            k = k + 1;
        }
        let mut x: usize = 0;
        while x < n
            invariant
                n == self.nodes().len(),
                m == edges.len(),
                edges == self.edge_seq(),
                x <= n,
                parent@.len() == n,
                forall|q: usize| q < n ==> #[trigger] parent@[q as int] == container(edges, q),
                forall|q: usize| q < x ==> (#[trigger] climb(edges, n as nat, q, n as nat)) is Some,
            decreases n - x,
        {
            let mut cur = x;
            let mut steps: usize = 0;
            loop
                invariant
                    n == self.nodes().len(),
                    edges == self.edge_seq(),
                    parent@.len() == n,
                    forall|q: usize| q < n ==> #[trigger] parent@[q as int] == container(edges, q),
                    x < n,
                    cur < n,
                    steps <= n,
                    (climb(edges, n as nat, x, n as nat) is Some) == (climb(edges, n as nat, cur, (n - steps) as nat) is Some),
                ensures
                    climb(edges, n as nat, x, n as nat) is Some,
                decreases n - steps,
            {
                match parent[cur] {
                    None => {
                        break;
                    },
                    Some(p) => {
                        if p >= n || steps == n {
                            proof {
                                if containment_acyclic(edges, n as nat) {
                                    lemma_acyclic_chains_end(edges, n as nat);
                                    assert(climb(edges, n as nat, x, n as nat) is Some);
                                }
                            }
                            return false;
                        }
                        cur = p;
                        steps = steps + 1;
                    },
                }
            }
            x = x + 1;
        }
        proof {
            lemma_chains_rank(edges, n as nat);
        }
        true
    }

    /// The nodes, by index.
    pub open spec fn nodes(&self) -> Seq<Node> {
        arc_nodes(self.0)
    }

    /// The edges as `(source, target, weight)`, by index.
    pub open spec fn edge_seq(&self) -> Seq<(usize, usize, Edge)> {
        arc_edges(self.0)
    }

    /// A graph without nodes or edges.
    pub fn new() -> (res: Self)
        ensures
            res.nodes() == Seq::<Node>::empty(),
            res.edge_seq() == Seq::<(usize, usize, Edge)>::empty(),
    {
        ArcGraph(arc_new())
    }

    /// Add a node; its index is the number of nodes before it.
    pub fn add_node(&mut self, n: Node) -> (i: usize)
        requires
            old(self).nodes().len() < 4294967295,
        ensures
            final(self).nodes() == old(self).nodes().push(n),
            final(self).edge_seq() == old(self).edge_seq(),
            i == old(self).nodes().len(),
    {
        arc_add_node(&mut self.0, n)
    }

    /// Add an edge between two nodes of the graph.
    pub fn add_edge(&mut self, a: usize, b: usize, e: Edge)
        requires
            a < old(self).nodes().len(),
            b < old(self).nodes().len(),
            old(self).edge_seq().len() < 4294967295,
        ensures
            final(self).nodes() == old(self).nodes(),
            final(self).edge_seq() == old(self).edge_seq().push((a, b, e)),
    {
        arc_add_edge(&mut self.0, a, b, e);
    }

    /// The number of nodes.
    pub fn node_count(&self) -> (n: usize)
        ensures
            n == self.nodes().len(),
            arc_edges_within(self.edge_seq(), n as nat),
    {
        arc_node_count(&self.0)
    }

    /// The number of edges.
    pub fn edge_count(&self) -> (n: usize)
        ensures
            n == self.edge_seq().len(),
    {
        arc_edge_count(&self.0)
    }

    /// The node at index `i`.
    pub fn node(&self, i: usize) -> (n: &Node)
        requires
            i < self.nodes().len(),
        ensures
            *n == self.nodes()[i as int],
    {
        arc_node(&self.0, i)
    }

    /// The ends and weight of edge `k`.
    pub fn edge(&self, k: usize) -> (e: (usize, usize, &Edge))
        requires
            k < self.edge_seq().len(),
        ensures
            (e.0, e.1, *e.2) == self.edge_seq()[k as int],
    {
        arc_edge(&self.0, k)
    }

    /// Subgraph of the production module dependencies, with each node's
    /// weight its index here. `Reexports::Excluded` drops pure re-export
    /// edges as well. Nodes and kept edges keep their order.
    pub fn production_subgraph(&self, reexports: Reexports) -> (res: DiGraph<NodeIndex, ()>)
        requires
            self.nodes().len() < 4294967295,
            self.edge_seq().len() < 4294967295,
        ensures
            node_weights(res) == Seq::new(self.nodes().len(), |i: int| i as usize),
            edge_list(res) == cycle_pairs(self.edge_seq(), reexports, self.edge_seq().len() as int),
    {
        let n = self.node_count();
        let m = self.edge_count();
        let mut sub = new_index_graph();
        let mut i: usize = 0;
        while i < n
            invariant
                i <= n,
                n == self.nodes().len(),
                n < 4294967295,
                node_weights(sub) == Seq::new(i as nat, |j: int| j as usize),
                edge_list(sub) == Seq::<(usize, usize)>::empty(),
            decreases n - i,
        {
            add_index_node(&mut sub, i);
            i = i + 1;
            assert(node_weights(sub) =~= Seq::new(i as nat, |j: int| j as usize));
        }
        let mut k: usize = 0;
        while k < m
            invariant
                k <= m,
                m == self.edge_seq().len(),
                m < 4294967295,
                arc_edges_within(self.edge_seq(), n as nat),
                node_weights(sub) == Seq::new(n as nat, |j: int| j as usize),
                edge_list(sub) == cycle_pairs(self.edge_seq(), reexports, k as int),
                edge_list(sub).len() <= k,
            decreases m - k,
        {
            let (a, b, e) = self.edge(k);
            assert(self.edge_seq()[k as int].0 < n && self.edge_seq()[k as int].1 < n);
            let keep = e.is_production_module_dep() && (match reexports {
                Reexports::Included => true,
                Reexports::Excluded => !e.is_reexport_module_dep(),
            });
            if keep {
                add_unit_edge(&mut sub, a, b);
            }
            k = k + 1;
        }
        sub
    }

    /// The crate node that owns `idx`: the stored crate of a module, the
    /// node itself otherwise.
    pub fn owning_crate(&self, idx: usize) -> (res: usize)
        requires
            idx < self.nodes().len(),
        ensures
            res == match self.nodes()[idx as int] {
                Node::Module { crate_idx, .. } => crate_idx,
                _ => idx,
            },
    {
        match self.node(idx) {
            Node::Module { crate_idx, .. } => *crate_idx,
            _ => idx,
        }
    }

    /// An edge from `a` to `b`, where there is one.
    pub fn find_edge(&self, a: usize, b: usize) -> (res: Option<usize>)
        ensures
            match res {
                Some(k) => k < self.edge_seq().len() && self.edge_seq()[k as int].0 == a && self.edge_seq()[k as int].1 == b,
                None => !edge_between(self.edge_seq(), a, b),
            },
    {
        let n = arc_node_count(&self.0);
        if a >= n || b >= n {
            return None;
        }
        arc_find_edge(&self.0, a, b)
    }

    /// The reference sites carried by the edge `from -> to`: its locations
    /// where it is a module dependency, zero otherwise or without an edge.
    pub fn edge_refs(&self, from: usize, to: usize) -> (res: usize)
        ensures
            refs_between(self.edge_seq(), from, to, res as nat),
    {
        match self.find_edge(from, to) {
            Some(k) => {
                let (_, _, e) = self.edge(k);
                match e {
                    Edge::ModuleDep { locations, .. } => locations.len(),
                    _ => 0,
                }
            },
            None => 0,
        }
    }

    /// Which way the edge runs through the module tree, as a cut sees it.
    /// A child-to-parent edge that is a pure re-export (the prelude
    /// pattern) counts as structural, not preferred.
    pub fn cut_bias(&self, edge: (usize, usize)) -> (res: CutBias)
        ensures
            bias_of(self.edge_seq(), edge.0, edge.1, res),
    {
        let (from, to) = edge;
        if self.contains_child(from, to) {
            return CutBias::Skeletal;
        }
        if self.contains_child(to, from) {
            return match self.find_edge(from, to) {
                Some(k) => {
                    let (_, _, e) = self.edge(k);
                    if e.is_reexport_module_dep() {
                        CutBias::Skeletal
                    } else {
                        CutBias::Preferred
                    }
                },
                None => CutBias::Preferred,
            };
        }
        CutBias::Neutral
    }


    /// Whether `parent` has a `Contains` edge pointing to `child`.
    pub fn contains_child(&self, parent: usize, child: usize) -> (res: bool)
        ensures
            res == has_contains(self.edge_seq(), parent, child),
    {
        let m = self.edge_count();
        let mut k: usize = 0;
        while k < m
            invariant
                k <= m,
                m == self.edge_seq().len(),
                forall|j: int|
                    0 <= j < k ==> !(self.edge_seq()[j].0 == parent && self.edge_seq()[j].1 == child
                        && (#[trigger] self.edge_seq()[j]).2 is Contains),
            decreases m - k,
        {
            let (a, b, e) = self.edge(k);
            if a == parent && b == child && matches!(e, Edge::Contains) {
                assert(self.edge_seq()[k as int].2 is Contains);
                return true;
            }
            k = k + 1;
        }
        false
    }

    /// A map from child to parent for all `Contains` edges.
    pub fn parent_map(&self) -> (res: HashMap<usize, usize>)
        ensures
            res@ == parents_of(self.edge_seq(), self.edge_seq().len() as int),
    {
        let m = self.edge_count();
        let mut map: HashMap<usize, usize> = HashMap::new();
        let mut k: usize = 0;
        while k < m
            invariant
                k <= m,
                m == self.edge_seq().len(),
                map@ == parents_of(self.edge_seq(), k as int),
            decreases m - k,
        {
            let (a, b, e) = self.edge(k);
            if matches!(e, Edge::Contains) {
                map.insert(b, a);
            }
            k = k + 1;
        }
        map
    }

    /// The `Contains` edges as pairs.
    fn contains_edges(&self) -> (res: Vec<(usize, usize)>)
        ensures
            res@ == contains_pairs(self.edge_seq(), self.edge_seq().len() as int),
    {
        let m = self.edge_count();
        let mut pairs: Vec<(usize, usize)> = Vec::new();
        let mut k: usize = 0;
        while k < m
            invariant
                k <= m,
                m == self.edge_seq().len(),
                pairs@ == contains_pairs(self.edge_seq(), k as int),
            decreases m - k,
        {
            let (a, b, e) = self.edge(k);
            if matches!(e, Edge::Contains) {
                pairs.push((a, b));
            }
            k = k + 1;
        }
        pairs
    }

    /// All descendants of a node, itself included, along `Contains` edges.
    pub fn containment_subtree(&self, root: usize) -> (res: HashSet<usize>)
        ensures
            forall|x: usize| #[trigger] res@.contains(x) <==> reaches(
                contains_pairs(self.edge_seq(), self.edge_seq().len() as int),
                root,
                x,
            ),
    {
        let n = self.node_count();
        let pairs = self.contains_edges();
        proof {
            lemma_selected_pairs(self.edge_seq(), self.edge_seq().len() as int, n as nat);
        }
        if root >= n {
            let mut set: HashSet<usize> = HashSet::new();
            set.insert(root);
            proof {
                assert forall|x: usize| #[trigger] set@.contains(x) <==> reaches(pairs@, root, x) by {
                    if reaches(pairs@, root, x) {
                        lemma_reach_bound(pairs@, n as nat, root, x);
                    }
                    if x == root {
                        let p = seq![root];
                        assert(is_walk(pairs@, p));
                    }
                }
            }
            return set;
        }
        let mut starts: Vec<usize> = Vec::new();
        starts.push(root);
        let marks = reach_marks(n, &pairs, &starts);
        let set = marked_set(&marks);
        proof {
            assert forall|x: usize| #[trigger] set@.contains(x) <==> reaches(pairs@, root, x) by {
                if reaches(pairs@, root, x) {
                    lemma_reach_bound(pairs@, n as nat, root, x);
                    assert(starts@.contains(root)) by {
                        assert(starts@[0] == root);
                    }
                    assert(reached_from(pairs@, starts@, x));
                }
                if set@.contains(x) {
                    assert(reached_from(pairs@, starts@, x));
                    let s = choose|s: usize| #[trigger] starts@.contains(s) && reaches(pairs@, s, x);
                    assert(s == root);
                }
            }
        }
        set
    }

    /// The production-reachable crate nodes.
    ///
    /// A crate is reachable if it is an anchor (it has modules, or nobody
    /// depends on it while it depends on production code itself; every
    /// crate where no crate has modules), or if an anchor reaches it along
    /// production crate dependencies. When a crate dependency is seen from
    /// tests, every crate is reachable.
    pub fn production_reachable(&self) -> (res: HashSet<usize>)
        ensures
            has_test_crate_dep(self.edge_seq()) ==> forall|x: usize| #[trigger] res@.contains(x) <==> is_crate_node(
                self.nodes(),
                x,
            ),
            !has_test_crate_dep(self.edge_seq()) ==> forall|x: usize| #[trigger] res@.contains(x) <==> exists|a: usize|
                #[trigger] is_anchor(self.nodes(), self.edge_seq(), a) && reaches(
                    crate_dep_pairs(self.nodes(), self.edge_seq(), self.edge_seq().len() as int),
                    a,
                    x,
                ),
    {
        let n = self.node_count();
        let m = self.edge_count();
        let ghost nodes = self.nodes();
        let ghost edges = self.edge_seq();
        let mut k: usize = 0;
        let mut test_dep = false;
        while k < m
            invariant
                k <= m,
                m == edges.len(),
                edges == self.edge_seq(),
                test_dep == exists|j: int| 0 <= j < k && edge_is_test_crate_dep(#[trigger] edges[j].2),
            decreases m - k,
        {
            let (_, _, e) = self.edge(k);
            if e.is_test_crate_dep() {
                test_dep = true;
            }
            k = k + 1;
        }
        if test_dep {
            let mut set: HashSet<usize> = HashSet::new();
            let mut i: usize = 0;
            while i < n
                invariant
                    i <= n,
                    n == nodes.len(),
                    nodes == self.nodes(),
                    forall|x: usize| #[trigger] set@.contains(x) <==> x < i && is_crate_node(nodes, x),
                decreases n - i,
            {
                let ghost before = set@;
                let is_c = self.node(i).is_crate();
                assert(is_c == is_crate_node(nodes, i));
                if is_c {
                    set.insert(i);
                }
                assert forall|x: usize| #[trigger] set@.contains(x) <==> x < i + 1 && is_crate_node(nodes, x) by {
                    if x != i {
                        assert(set@.contains(x) == before.contains(x));
                    } else if is_c {
                        assert(set@.contains(i));
                    } else {
                        assert(!before.contains(i));
                    }
                }
                i = i + 1;
            }
            return set;
        }
        let mut has_modules: Vec<bool> = Vec::new();
        let mut depended: Vec<bool> = Vec::new();
        let mut uses_prod: Vec<bool> = Vec::new();
        let mut i: usize = 0;
        while i < n
            invariant
                i <= n,
                has_modules@.len() == i && depended@.len() == i && uses_prod@.len() == i,
                forall|x: int| 0 <= x < i ==> !#[trigger] has_modules@[x],
                forall|x: int| 0 <= x < i ==> !#[trigger] depended@[x],
                forall|x: int| 0 <= x < i ==> !#[trigger] uses_prod@[x],
            decreases n - i,
        {
            has_modules.push(false);
            depended.push(false);
            uses_prod.push(false);
            i = i + 1;
        }
        let mut k: usize = 0;
        while k < m
            invariant
                k <= m,
                m == edges.len(),
                n == nodes.len(),
                edges == self.edge_seq(),
                nodes == self.nodes(),
                arc_edges_within(edges, n as nat),
                has_modules@.len() == n && depended@.len() == n && uses_prod@.len() == n,
                forall|c: usize| c < n ==> (#[trigger] has_modules@[c as int] <==> exists|j: int|
                    0 <= j < k && (#[trigger] edges[j]).0 == c && edges[j].2 is Contains),
                forall|c: usize| c < n ==> (#[trigger] depended@[c as int] <==> exists|j: int|
                    0 <= j < k && (#[trigger] edges[j]).1 == c && edge_is_crate_dep(edges[j].2)),
                forall|c: usize| c < n ==> (#[trigger] uses_prod@[c as int] <==> exists|j: int|
                    0 <= j < k && (#[trigger] edges[j]).0 == c && edge_is_production_crate_dep(edges[j].2)
                        && is_crate_node(nodes, edges[j].1)),
            decreases m - k,
        {
            let (a, b, e) = self.edge(k);
            assert(edges[k as int].0 < n && edges[k as int].1 < n);
            if matches!(e, Edge::Contains) {
                has_modules.set(a, true);
            }
            if e.is_crate_dep() {
                depended.set(b, true);
            }
            if e.is_production_crate_dep() && self.node(b).is_crate() {
                uses_prod.set(a, true);
            }
            proof {
                assert forall|c: usize| c < n implies (#[trigger] has_modules@[c as int] <==> exists|j: int|
                    0 <= j < k + 1 && (#[trigger] edges[j]).0 == c && edges[j].2 is Contains) by {
                    if exists|j: int| 0 <= j < k + 1 && (#[trigger] edges[j]).0 == c && edges[j].2 is Contains {
                        let j = choose|j: int| 0 <= j < k + 1 && (#[trigger] edges[j]).0 == c && edges[j].2 is Contains;
                        if j < k {
                        }
                    }
                }
                assert forall|c: usize| c < n implies (#[trigger] depended@[c as int] <==> exists|j: int|
                    0 <= j < k + 1 && (#[trigger] edges[j]).1 == c && edge_is_crate_dep(edges[j].2)) by {
                    if exists|j: int| 0 <= j < k + 1 && (#[trigger] edges[j]).1 == c && edge_is_crate_dep(edges[j].2) {
                        let j = choose|j: int| 0 <= j < k + 1 && (#[trigger] edges[j]).1 == c && edge_is_crate_dep(edges[j].2);
                        if j < k {
                        }
                    }
                }
                assert forall|c: usize| c < n implies (#[trigger] uses_prod@[c as int] <==> exists|j: int|
                    0 <= j < k + 1 && (#[trigger] edges[j]).0 == c && edge_is_production_crate_dep(edges[j].2)
                        && is_crate_node(nodes, edges[j].1)) by {
                    if exists|j: int| 0 <= j < k + 1 && (#[trigger] edges[j]).0 == c && edge_is_production_crate_dep(edges[j].2)
                        && is_crate_node(nodes, edges[j].1) {
                        let j = choose|j: int| 0 <= j < k + 1 && (#[trigger] edges[j]).0 == c && edge_is_production_crate_dep(edges[j].2)
                            && is_crate_node(nodes, edges[j].1);
                        if j < k {
                        }
                    }
                }
            }
            k = k + 1;
        }
        let mut any_modules = false;
        let mut i: usize = 0;
        while i < n
            invariant
                i <= n,
                n == nodes.len(),
                nodes == self.nodes(),
                has_modules@.len() == n,
                forall|c: usize| c < n ==> (#[trigger] has_modules@[c as int] <==> has_contains_out(edges, c)),
                any_modules == exists|c: usize| c < i && #[trigger] is_crate_node(nodes, c) && has_contains_out(edges, c),
            decreases n - i,
        {
            let is_c = self.node(i).is_crate();
            assert(is_c == is_crate_node(nodes, i));
            let ghost before = any_modules;
            if is_c && has_modules[i] {
                any_modules = true;
            }
            proof {
                if any_modules && !before {
                    assert(is_crate_node(nodes, i) && has_contains_out(edges, i));
                }
                if before {
                    let c = choose|c: usize| c < i && #[trigger] is_crate_node(nodes, c) && has_contains_out(edges, c);
                    assert(c < i + 1);
                }
                if exists|c: usize| c < i + 1 && #[trigger] is_crate_node(nodes, c) && has_contains_out(edges, c) {
                    let c = choose|c: usize| c < i + 1 && #[trigger] is_crate_node(nodes, c) && has_contains_out(edges, c);
                    if c < i {
                        assert(before);
                    }
                }
            }
            i = i + 1;
        }
        proof {
            assert(any_modules == any_crate_has_modules(nodes, edges));
        }
        let mut anchors: Vec<usize> = Vec::new();
        let mut i: usize = 0;
        while i < n
            invariant
                i <= n,
                n == nodes.len(),
                nodes == self.nodes(),
                edges == self.edge_seq(),
                has_modules@.len() == n && depended@.len() == n && uses_prod@.len() == n,
                forall|c: usize| c < n ==> (#[trigger] has_modules@[c as int] <==> has_contains_out(edges, c)),
                forall|c: usize| c < n ==> (#[trigger] depended@[c as int] <==> depended_upon(edges, c)),
                forall|c: usize| c < n ==> (#[trigger] uses_prod@[c as int] <==> uses_production(nodes, edges, c)),
                any_modules == any_crate_has_modules(nodes, edges),
                forall|q: int| 0 <= q < anchors@.len() ==> #[trigger] anchors@[q] < n,
                forall|c: usize| #[trigger] anchors@.contains(c) <==> c < i && is_anchor(nodes, edges, c),
            decreases n - i,
        {
            let is_c = self.node(i).is_crate();
            let anchored = is_c && (!any_modules || has_modules[i] || (!depended[i] && uses_prod[i]));
            assert(is_c == is_crate_node(nodes, i));
            assert(anchored == is_anchor(nodes, edges, i));
            if anchored {
                let ghost before = anchors@;
                anchors.push(i);
                proof {
                    assert forall|c: usize| #[trigger] anchors@.contains(c) <==> c < i + 1 && is_anchor(nodes, edges, c) by {
                        if anchors@.contains(c) && c != i {
                            let q = choose|q: int| 0 <= q < anchors@.len() && anchors@[q] == c;
                            assert(q < before.len());
                            assert(before[q] == c);
                            assert(before.contains(c));
                        }
                        if c < i && is_anchor(nodes, edges, c) {
                            assert(before.contains(c));
                            let q = choose|q: int| 0 <= q < before.len() && before[q] == c;
                            assert(anchors@[q] == c);
                        }
                        if c == i {
                            assert(anchors@[anchors@.len() - 1] == c);
                        }
                    }
                }
            } else {
                assert forall|c: usize| #[trigger] anchors@.contains(c) <==> c < i + 1 && is_anchor(nodes, edges, c) by {
                    if c == i {
                        assert(!is_anchor(nodes, edges, i));
                        assert(!(i < i));
                    }
                }
            }
            i = i + 1;
        }
        let mut pairs: Vec<(usize, usize)> = Vec::new();
        let mut k: usize = 0;
        while k < m
            invariant
                k <= m,
                m == edges.len(),
                n == nodes.len(),
                edges == self.edge_seq(),
                nodes == self.nodes(),
                arc_edges_within(edges, n as nat),
                pairs@ == crate_dep_pairs(nodes, edges, k as int),
            decreases m - k,
        {
            let (a, b, e) = self.edge(k);
            assert(edges[k as int].1 < n);
            if e.is_production_crate_dep() && self.node(b).is_crate() {
                pairs.push((a, b));
            }
            k = k + 1;
        }
        proof {
            lemma_crate_dep_pairs(nodes, edges, m as int, n as nat);
        }
        let marks = reach_marks(n, &pairs, &anchors);
        let set = marked_set(&marks);
        proof {
            assert forall|x: usize| #[trigger] set@.contains(x) <==> exists|a: usize|
                #[trigger] is_anchor(nodes, edges, a) && reaches(pairs@, a, x) by {
                if exists|a: usize| #[trigger] is_anchor(nodes, edges, a) && reaches(pairs@, a, x) {
                    let a = choose|a: usize| #[trigger] is_anchor(nodes, edges, a) && reaches(pairs@, a, x);
                    lemma_reach_bound(pairs@, n as nat, a, x);
                    assert(anchors@.contains(a));
                    assert(reached_from(pairs@, anchors@, x));
                }
                if set@.contains(x) {
                    assert(reached_from(pairs@, anchors@, x));
                    let a = choose|a: usize| #[trigger] anchors@.contains(a) && reaches(pairs@, a, x);
                    assert(is_anchor(nodes, edges, a));
                }
            }
        }
        set
    }

    /// The parent of `x` along the most recent `Contains` edge into it.
    fn container_of(&self, x: usize) -> (res: Option<usize>)
        ensures
            res == container(self.edge_seq(), x),
    {
        let m = self.edge_count();
        let mut k: usize = m;
        while k > 0
            invariant
                k <= m,
                m == self.edge_seq().len(),
                container(self.edge_seq(), x) == container_upto(self.edge_seq(), x, k as int),
            decreases k,
        {
            let (a, b, e) = self.edge(k - 1);
            if b == x && matches!(e, Edge::Contains) {
                return Some(a);
            }
            k = k - 1;
        }
        None
    }

    /// Fully-qualified name of a node: `<crate>::<module::path>`.
    ///
    /// The module path is rebuilt by walking `Contains` edges up to the
    /// owning crate, so modules sharing a leaf name stay apart. A node with
    /// no incoming `Contains` edge degrades to its leaf name.
    pub fn qualified_name(&self, idx: usize) -> (res: String)
        requires
            idx < self.nodes().len(),
            containment_acyclic(self.edge_seq(), self.nodes().len()),
        ensures
            res@ == qualified(self.nodes(), self.edge_seq(), idx),
    {
        let n = self.node_count();
        let ghost nodes = self.nodes();
        let ghost edges = self.edge_seq();
        let ghost depth = some_ranking(edges, nodes.len());
        let mut up: Vec<Vec<char>> = Vec::new();
        let mut current = idx;
        let mut crate_name: Option<Vec<char>> = None;
        loop
            invariant_except_break
                n == nodes.len(),
                nodes == self.nodes(),
                edges == self.edge_seq(),
                ranked(edges, depth, n as nat),
                current < n,
                crate_name is None,
                ({
                    let (all_up, c) = ancestry(nodes, edges, depth, idx);
                    let (rest, c2) = ancestry(nodes, edges, depth, current);
                    all_up == up@.map_values(|v: Vec<char>| v@) + rest && c == c2
                }),
            ensures
                ({
                    let (all_up, c) = ancestry(nodes, edges, depth, idx);
                    all_up == up@.map_values(|v: Vec<char>| v@) && c == match crate_name {
                        Some(v) => Some(v@),
                        None => None::<Seq<char>>,
                    }
                }),
            decreases depth[current as int],
        {
            match self.container_of(current) {
                None => {
                    break;
                },
                Some(parent) => {
                    proof {
                        lemma_container(edges, depth, n as nat, current, edges.len() as int);
                    }
                    let pn = self.node(parent);
                    if pn.is_crate() {
                        crate_name = Some(chars_of(pn.name()));
                        break;
                    }
                    let ghost before = up@.map_values(|v: Vec<char>| v@);
                    up.push(chars_of(pn.name()));
                    proof {
                        assert(up@.map_values(|v: Vec<char>| v@) =~= before.push(node_name(nodes[parent as int])));
                        let (rest, c2) = ancestry(nodes, edges, depth, current);
                        let (rest2, c3) = ancestry(nodes, edges, depth, parent);
                        assert(rest == seq![node_name(nodes[parent as int])] + rest2);
                        assert(before + rest =~= before.push(node_name(nodes[parent as int])) + rest2);
                    }
                    current = parent;
                },
            }
        }
        let ghost ups = up@.map_values(|v: Vec<char>| v@);
        let mut parts: Vec<Vec<char>> = Vec::new();
        let ghost full = seq![node_name(nodes[idx as int])] + ups;
        let mut k: usize = up.len();
        while k > 0
            invariant
                k <= up@.len(),
                ups == up@.map_values(|v: Vec<char>| v@),
                full == seq![node_name(nodes[idx as int])] + ups,
                parts@.map_values(|v: Vec<char>| v@) == full.reverse().take((up@.len() - k) as int),
            decreases k,
        {
            let ghost before = parts@.map_values(|v: Vec<char>| v@);
            let ghost before_parts = parts@;
            k = k - 1;
            let piece = chars_of(string_of(up[k].as_slice()).as_str());
            assert(piece@ == up@[k as int]@);
            assert(ups[k as int] == up@[k as int]@);
            parts.push(piece);
            proof {
                assert(parts@ == before_parts.push(piece));
                assert(parts@.map_values(|v: Vec<char>| v@) =~= before.push(piece@));
                assert(full.reverse()[(up@.len() - 1 - k) as int] == full[(k + 1) as int]);
                assert(full[(k + 1) as int] == ups[k as int]);
                assert(full.reverse().take((up@.len() - k) as int) =~= full.reverse().take((up@.len() - 1 - k) as int).push(
                    full.reverse()[(up@.len() - 1 - k) as int],
                ));
            }
        }
        let ghost before = parts@.map_values(|v: Vec<char>| v@);
        let ghost before_parts = parts@;
        let last_piece = chars_of(self.node(idx).name());
        assert(last_piece@ == node_name(nodes[idx as int]));
        parts.push(last_piece);
        proof {
            assert(parts@ == before_parts.push(last_piece));
            assert(parts@.map_values(|v: Vec<char>| v@) =~= before.push(last_piece@));
            assert(before =~= full.reverse().take(up@.len() as int));
            assert(full.reverse()[up@.len() as int] == full[0]);
            assert(full.reverse() =~= full.reverse().take(up@.len() as int).push(full.reverse()[up@.len() as int]));
        }
        let path = join_on_colons(&parts);
        match crate_name {
            Some(c) => {
                let mut out = c;
                out.push(':');
                out.push(':');
                let mut i: usize = 0;
                let ghost prefix = out@;
                while i < path.len()
                    invariant
                        i <= path@.len(),
                        out@ == prefix + path@.take(i as int),
                    decreases path.len() - i,
                {
                    out.push(path[i]);
                    i = i + 1;
                    assert(out@ =~= prefix + path@.take(i as int));
                }
                proof {
                    assert(path@.take(path@.len() as int) =~= path@);
                    assert(prefix =~= c@ + colons());
                }
                string_of(out.as_slice())
            },
            None => string_of(path.as_slice()),
        }
    }

    /// The modules from `start` up, innermost first, while they are modules.
    fn chain(&self, start: usize) -> (res: Vec<usize>)
        requires
            start < self.nodes().len(),
            containment_acyclic(self.edge_seq(), self.nodes().len()),
        ensures
            res@ == chain_of(self.nodes(), self.edge_seq(), start),
    {
        let n = self.node_count();
        let ghost nodes = self.nodes();
        let ghost edges = self.edge_seq();
        let ghost depth = some_ranking(edges, nodes.len());
        let mut out: Vec<usize> = Vec::new();
        let mut node = start;
        loop
            invariant_except_break
                n == nodes.len(),
                nodes == self.nodes(),
                edges == self.edge_seq(),
                ranked(edges, depth, n as nat),
                node < n,
                module_chain(nodes, edges, depth, start) == out@ + module_chain(nodes, edges, depth, node),
            ensures
                module_chain(nodes, edges, depth, start) == out@,
            decreases depth[node as int],
        {
            if !self.node(node).is_module() {
                assert(module_chain(nodes, edges, depth, node) == Seq::<usize>::empty());
                assert(out@ + Seq::<usize>::empty() =~= out@);
                break;
            }
            let ghost before = out@;
            out.push(node);
            match self.container_of(node) {
                Some(parent) => {
                    proof {
                        lemma_container(edges, depth, n as nat, node, edges.len() as int);
                        assert(before + module_chain(nodes, edges, depth, node) =~= out@ + module_chain(
                            nodes,
                            edges,
                            depth,
                            parent,
                        ));
                    }
                    node = parent;
                },
                None => {
                    assert(module_chain(nodes, edges, depth, node) == seq![node]);
                    assert(before + seq![node] =~= out@);
                    break;
                },
            }
        }
        out
    }

    /// Deepest module that contains every node in `nodes` via `Contains`
    /// edges, or `None` when they share only the crate root (or span
    /// several crates). The crate root itself is never returned.
    pub fn deepest_common_module(&self, nodes: &[usize]) -> (res: Option<usize>)
        requires
            forall|i: int| 0 <= i < nodes@.len() ==> #[trigger] nodes@[i] < self.nodes().len(),
            containment_acyclic(self.edge_seq(), self.nodes().len()),
        ensures
            nodes@.len() == 0 ==> res is None,
            nodes@.len() > 0 ==> res == first_common(
                self.nodes(),
                self.edge_seq(),
                chain_of(self.nodes(), self.edge_seq(), nodes@[0]),
                nodes@.skip(1),
            ),
    {
        if nodes.len() == 0 {
            return None;
        }
        let ghost others = nodes@.skip(1);
        let mut chains: Vec<Vec<usize>> = Vec::new();
        let mut i: usize = 1;
        while i < nodes.len()
            invariant
                1 <= i <= nodes@.len(),
                others == nodes@.skip(1),
                forall|j: int| 0 <= j < nodes@.len() ==> #[trigger] nodes@[j] < self.nodes().len(),
                containment_acyclic(self.edge_seq(), self.nodes().len()),
                chains@.len() == i - 1,
                forall|o: int| 0 <= o < i - 1 ==> (#[trigger] chains@[o])@ == chain_of(self.nodes(), self.edge_seq(), others[o]),
            decreases nodes.len() - i,
        {
            let c = self.chain(nodes[i]);
            chains.push(c);
            i = i + 1;
        }
        let first = self.chain(nodes[0]);
        let ghost fc = first@;
        let mut k: usize = 0;
        while k < first.len()
            invariant
                k <= first@.len(),
                nodes@.len() > 0,
                others == nodes@.skip(1),
                fc == first@,
                fc == chain_of(self.nodes(), self.edge_seq(), nodes@[0]),
                chains@.len() == others.len(),
                forall|o: int| 0 <= o < others.len() ==> (#[trigger] chains@[o])@ == chain_of(self.nodes(), self.edge_seq(), others[o]),
                forall|j: int| 0 <= j < k ==> !common_at(self.nodes(), self.edge_seq(), fc, others, j),
            decreases first.len() - k,
        {
            let x = first[k];
            let mut all = true;
            let mut o: usize = 0;
            while o < chains.len()
                invariant
                    o <= chains@.len(),
                    chains@.len() == others.len(),
                    x == fc[k as int],
                    forall|q: int| 0 <= q < others.len() ==> (#[trigger] chains@[q])@ == chain_of(self.nodes(), self.edge_seq(), others[q]),
                    all == forall|q: int| 0 <= q < o ==> #[trigger] chain_of(self.nodes(), self.edge_seq(), others[q]).contains(x),
                decreases chains.len() - o,
            {
                let mut found = false;
                let ch = &chains[o];
                let mut j: usize = 0;
                while j < ch.len()
                    invariant
                        j <= ch@.len(),
                        found == exists|q: int| 0 <= q < j && ch@[q] == x,
                    decreases ch.len() - j,
                {
                    if ch[j] == x {
                        found = true;
                    }
                    j = j + 1;
                }
                assert(found == ch@.contains(x));
                assert(ch@ == chain_of(self.nodes(), self.edge_seq(), others[o as int]));
                if !found {
                    all = false;
                }
                o = o + 1;
            }
            if all {
                proof {
                    assert forall|q: int| 0 <= q < others.len() implies #[trigger] chain_of(self.nodes(), self.edge_seq(), others[q]).contains(fc[k as int]) by {
                        assert(chain_of(self.nodes(), self.edge_seq(), others[q]).contains(x));
                    }
                    assert(common_at(self.nodes(), self.edge_seq(), fc, others, k as int));
                    assert(common_at(self.nodes(), self.edge_seq(), fc, others, k as int)
                        && forall|j: int| 0 <= j < k ==> !common_at(self.nodes(), self.edge_seq(), fc, others, j));
                    let i = choose|i: int| 0 <= i < fc.len() && #[trigger] common_at(self.nodes(), self.edge_seq(), fc, others, i)
                        && forall|j: int| 0 <= j < i ==> !common_at(self.nodes(), self.edge_seq(), fc, others, j);
                    if i < k {
                    } else if i > k {
                        assert(!common_at(self.nodes(), self.edge_seq(), fc, others, k as int));
                    }
                }
                return Some(x);
            }
            k = k + 1;
        }
        None
    }
}

} // verus!
