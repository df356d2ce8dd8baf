//! The directed graphs the cycle analyses read: petgraph's `Graph` whose
//! node weights are node indices of the graph they were taken from, and
//! whose edges carry nothing. What the analyses read of one is named here,
//! its node weights and its edges in index order, with walks and
//! reachability over the edges.

use petgraph::graph::{DiGraph, Graph, NodeIndex};
use petgraph::visit::EdgeRef;
use vstd::prelude::*;

verus! {

#[verifier::external_type_specification]
#[verifier::external_body]
#[verifier::reject_recursive_types(N)]
#[verifier::reject_recursive_types(E)]
#[verifier::reject_recursive_types(Ty)]
#[verifier::reject_recursive_types(Ix)]
pub struct ExGraph<N, E, Ty, Ix>(Graph<N, E, Ty, Ix>);

#[verifier::external_type_specification]
#[verifier::external_body]
#[verifier::reject_recursive_types(Ix)]
pub struct ExNodeIndex<Ix>(NodeIndex<Ix>);

#[verifier::external_type_specification]
#[verifier::external_body]
pub struct ExDirected(petgraph::Directed);

/// The node weights of a graph, each an index, by node index.
pub uninterp spec fn node_weights(g: DiGraph<NodeIndex, ()>) -> Seq<usize>;

/// The edges of a graph as `(source, target)` node indices, by edge index.
pub uninterp spec fn edge_list(g: DiGraph<NodeIndex, ()>) -> Seq<(usize, usize)>;

/// Whether `edges` holds an edge from `a` to `b`.
pub open spec fn has_edge(edges: Seq<(usize, usize)>, a: usize, b: usize) -> bool {
    exists|k: int| 0 <= k < edges.len() && edges[k] == (a, b)
}

/// Whether the `i`-th node of `p` has an edge to the next.
pub open spec fn step(edges: Seq<(usize, usize)>, p: Seq<usize>, i: int) -> bool {
    has_edge(edges, p[i], p[i + 1])
}

/// Whether `p` is a walk: at least one node, each joined to the next.
pub open spec fn is_walk(edges: Seq<(usize, usize)>, p: Seq<usize>) -> bool {
    p.len() >= 1 && forall|i: int| 0 <= i < p.len() - 1 ==> #[trigger] step(edges, p, i)
}

/// Whether a walk leads from `a` to `b`.
pub open spec fn reaches(edges: Seq<(usize, usize)>, a: usize, b: usize) -> bool {
    exists|p: Seq<usize>| #[trigger] is_walk(edges, p) && p[0] == a && p.last() == b
}

/// Whether node `a` stands in the `c`-th component.
pub open spec fn in_comp(comps: Seq<Seq<usize>>, c: int, a: usize) -> bool {
    0 <= c < comps.len() && comps[c].contains(a)
}

/// Whether node `a` stands in some component.
pub open spec fn placed(comps: Seq<Seq<usize>>, a: usize) -> bool {
    exists|c: int| #[trigger] in_comp(comps, c, a)
}

/// Whether `comps` are the strongly connected components of a graph of `n`
/// nodes: node indices, each node in exactly one and there once, and two
/// nodes in the same one exactly when each reaches the other.
pub open spec fn are_components(comps: Seq<Seq<usize>>, n: nat, edges: Seq<(usize, usize)>) -> bool {
    &&& forall|c: int, i: int|
        0 <= c < comps.len() && 0 <= i < comps[c].len() ==> #[trigger] comps[c][i] < n
    &&& forall|c: int| 0 <= c < comps.len() ==> (#[trigger] comps[c]).no_duplicates()
    &&& forall|a: usize| a < n ==> #[trigger] placed(comps, a)
    &&& forall|c1: int, c2: int, a: usize|
        #[trigger] in_comp(comps, c1, a) && #[trigger] in_comp(comps, c2, a) ==> c1 == c2
    &&& forall|c: int, a: usize, b: usize|
        #[trigger] in_comp(comps, c, a) && #[trigger] in_comp(comps, c, b) ==> reaches(edges, a, b)
    &&& forall|c: int, a: usize, b: usize|
        #[trigger] in_comp(comps, c, a) && b < n && #[trigger] reaches(edges, a, b) && reaches(
            edges,
            b,
            a,
        )
            ==> in_comp(comps, c, b)
}

/// Whether the components come in reverse topological order: every edge
/// from one component to another leads to one listed earlier.
pub open spec fn sinks_first(comps: Seq<Seq<usize>>, edges: Seq<(usize, usize)>) -> bool {
    forall|c1: int, c2: int, a: usize, b: usize|
        #[trigger] in_comp(comps, c1, a) && #[trigger] in_comp(comps, c2, b) && has_edge(edges, a, b) ==> c2 <= c1
}

/// Whether every edge's ends are among the first `n` nodes.
pub open spec fn edges_within(edges: Seq<(usize, usize)>, n: nat) -> bool {
    forall|k: int| 0 <= k < edges.len() ==> (#[trigger] edges[k]).0 < n && edges[k].1 < n
}

/// The targets of the edges leaving `a`.
pub open spec fn targets_of(edges: Seq<(usize, usize)>, a: usize) -> Seq<usize>
    decreases edges.len(),
{
    if edges.len() == 0 {
        Seq::empty()
    } else if edges.last().0 == a {
        targets_of(edges.drop_last(), a).push(edges.last().1)
    } else {
        targets_of(edges.drop_last(), a)
    }
}

/// The sources of the edges entering `b`.
pub open spec fn sources_of(edges: Seq<(usize, usize)>, b: usize) -> Seq<usize>
    decreases edges.len(),
{
    if edges.len() == 0 {
        Seq::empty()
    } else if edges.last().1 == b {
        sources_of(edges.drop_last(), b).push(edges.last().0)
    } else {
        sources_of(edges.drop_last(), b)
    }
}

/// A target of `a` is the end of an edge from `a`, and back.
pub proof fn lemma_targets_of(edges: Seq<(usize, usize)>, a: usize, b: usize)
    ensures
        targets_of(edges, a).contains(b) <==> has_edge(edges, a, b),
    decreases edges.len(),
{
    if edges.len() > 0 {
        let init = edges.drop_last();
        lemma_targets_of(init, a, b);
        if has_edge(init, a, b) {
            let k = choose|k: int| 0 <= k < init.len() && init[k] == (a, b);
            assert(edges[k] == (a, b));
        }
        if has_edge(edges, a, b) {
            let k = choose|k: int| 0 <= k < edges.len() && edges[k] == (a, b);
            if k < init.len() {
                assert(init[k] == (a, b));
            }
        }
        if edges.last().0 == a {
            let t = targets_of(init, a);
            assert(t.push(edges.last().1).contains(b) <==> (t.contains(b) || edges.last().1 == b))
                by {
                if t.push(edges.last().1).contains(b) {
                    let j = choose|j: int| 0 <= j < t.len() + 1 && t.push(edges.last().1)[j] == b;
                    if j < t.len() {
                        assert(t[j] == b);
                    }
                }
                if t.contains(b) {
                    let j = choose|j: int| 0 <= j < t.len() && t[j] == b;
                    assert(t.push(edges.last().1)[j] == b);
                }
                if edges.last().1 == b {
                    assert(t.push(edges.last().1)[t.len() as int] == b);
                }
            }
            if edges.last().1 == b {
                assert(edges[edges.len() - 1] == (a, b));
            }
        }
    }
}

/// A source of `b` is the start of an edge to `b`, and back.
pub proof fn lemma_sources_of(edges: Seq<(usize, usize)>, a: usize, b: usize)
    ensures
        sources_of(edges, b).contains(a) <==> has_edge(edges, a, b),
    decreases edges.len(),
{
    if edges.len() > 0 {
        let init = edges.drop_last();
        lemma_sources_of(init, a, b);
        if has_edge(init, a, b) {
            let k = choose|k: int| 0 <= k < init.len() && init[k] == (a, b);
            assert(edges[k] == (a, b));
        }
        if has_edge(edges, a, b) {
            let k = choose|k: int| 0 <= k < edges.len() && edges[k] == (a, b);
            if k < init.len() {
                assert(init[k] == (a, b));
            }
        }
        if edges.last().1 == b {
            let t = sources_of(init, b);
            assert(t.push(edges.last().0).contains(a) <==> (t.contains(a) || edges.last().0 == a))
                by {
                if t.push(edges.last().0).contains(a) {
                    let j = choose|j: int| 0 <= j < t.len() + 1 && t.push(edges.last().0)[j] == a;
                    if j < t.len() {
                        assert(t[j] == a);
                    }
                }
                if t.contains(a) {
                    let j = choose|j: int| 0 <= j < t.len() && t[j] == a;
                    assert(t.push(edges.last().0)[j] == a);
                }
                if edges.last().0 == a {
                    assert(t.push(edges.last().0)[t.len() as int] == a);
                }
            }
            if edges.last().0 == a {
                assert(edges[edges.len() - 1] == (a, b));
            }
        }
    }
}

/// Walks compose: one from `a` to `b` and one from `b` to `c` make one from
/// `a` to `c`.
pub proof fn lemma_reaches_trans(edges: Seq<(usize, usize)>, a: usize, b: usize, c: usize)
    requires
        reaches(edges, a, b),
        reaches(edges, b, c),
    ensures
        reaches(edges, a, c),
{
    let p = choose|p: Seq<usize>| #[trigger] is_walk(edges, p) && p[0] == a && p.last() == b;
    let q = choose|q: Seq<usize>| #[trigger] is_walk(edges, q) && q[0] == b && q.last() == c;
    let r = p + q.skip(1);
    assert forall|i: int| 0 <= i < r.len() - 1 implies #[trigger] step(edges, r, i) by {
        if i < p.len() - 1 {
            assert(step(edges, p, i));
            assert(r[i] == p[i] && r[i + 1] == p[i + 1]);
        } else if i == p.len() - 1 {
            assert(step(edges, q, 0));
            assert(r[i] == q[0] && r[i + 1] == q[1]);
        } else {
            let j = i - p.len() + 1;
            assert(step(edges, q, j));
            assert(r[i] == q[j] && r[i + 1] == q[j + 1]);
        }
    }
    assert(is_walk(edges, r));
    if q.len() == 1 {
        assert(r.last() == p.last());
    } else {
        assert(r.last() == q.last());
    }
}

/// The part of a walk up to its `k`-th node is a walk to that node, and the
/// part from it a walk from it.
pub proof fn lemma_walk_split(edges: Seq<(usize, usize)>, p: Seq<usize>, k: int)
    requires
        is_walk(edges, p),
        0 <= k < p.len(),
    ensures
        reaches(edges, p[0], p[k]),
        reaches(edges, p[k], p.last()),
{
    let front = p.take(k + 1);
    assert forall|i: int| 0 <= i < front.len() - 1 implies #[trigger] step(edges, front, i) by {
        assert(step(edges, p, i));
    }
    assert(is_walk(edges, front));
    assert(front[0] == p[0] && front.last() == p[k]);
    let back = p.skip(k);
    assert forall|i: int| 0 <= i < back.len() - 1 implies #[trigger] step(edges, back, i) by {
        assert(step(edges, p, i + k));
    }
    assert(is_walk(edges, back));
    assert(back[0] == p[k] && back.last() == p.last());
}

/// A single edge is a walk.
pub proof fn lemma_edge_reaches(edges: Seq<(usize, usize)>, a: usize, b: usize)
    requires
        has_edge(edges, a, b),
    ensures
        reaches(edges, a, b),
{
    let p = seq![a, b];
    assert(step(edges, p, 0));
    assert(is_walk(edges, p));
}

/// Two nodes of one component are joined by a walk that stays in it.
pub proof fn lemma_walk_in_component(
    comps: Seq<Seq<usize>>,
    n: nat,
    edges: Seq<(usize, usize)>,
    c: int,
    a: usize,
    b: usize,
) -> (p: Seq<usize>)
    requires
        are_components(comps, n, edges),
        edges_within(edges, n),
        in_comp(comps, c, a),
        in_comp(comps, c, b),
    ensures
        is_walk(edges, p),
        p[0] == a,
        p.last() == b,
        forall|i: int| 0 <= i < p.len() ==> #[trigger] in_comp(comps, c, p[i]),
{
    assert(reaches(edges, a, b));
    assert(reaches(edges, b, a));
    let p = choose|p: Seq<usize>| #[trigger] is_walk(edges, p) && p[0] == a && p.last() == b;
    assert forall|i: int| 0 <= i < p.len() implies #[trigger] in_comp(comps, c, p[i]) by {
        lemma_walk_split(edges, p, i);
        lemma_reaches_trans(edges, p[i], b, a);
        if i > 0 {
            assert(step(edges, p, i - 1));
            let k = choose|k: int| 0 <= k < edges.len() && edges[k] == (p[i - 1], p[i]);
            assert(edges[k].1 < n);
        } else {
            let i0 = choose|i0: int| 0 <= i0 < comps[c].len() && comps[c][i0] == a;
            assert(comps[c][i0] < n);
        }
    }
    p
}

/// `Graph::node_count`. The graph admits no edge whose ends are not among
/// its nodes (`add_edge` panics on such), so every edge's ends are below
/// the count.
#[verifier::external_body]
pub(crate) fn node_count(g: &DiGraph<NodeIndex, ()>) -> (n: usize)
    ensures
        n == node_weights(*g).len(),
        edges_within(edge_list(*g), n as nat),
{
    g.node_count()
}

/// `graph[NodeIndex::new(i)]`: the weight of node `i`, as its index.
#[verifier::external_body]
pub(crate) fn weight(g: &DiGraph<NodeIndex, ()>, i: usize) -> (w: usize)
    requires
        i < node_weights(*g).len(),
    ensures
        w == node_weights(*g)[i as int],
{
    g[NodeIndex::new(i)].index()
}

/// `Graph::edges`: the targets of the edges leaving node `a`, each edge
/// once (the graph lists them newest first; no order is claimed here).
#[verifier::external_body]
pub(crate) fn outgoing(g: &DiGraph<NodeIndex, ()>, a: usize) -> (t: Vec<usize>)
    requires
        a < node_weights(*g).len(),
    ensures
        t@.to_multiset() == targets_of(edge_list(*g), a).to_multiset(),
{
    g.edges(NodeIndex::new(a)).map(|e| e.target().index()).collect()
}

/// `Graph::edges_directed(b, Incoming)`: the sources of the edges entering
/// node `b`, each edge once (no order is claimed here).
#[verifier::external_body]
pub(crate) fn incoming(g: &DiGraph<NodeIndex, ()>, b: usize) -> (s: Vec<usize>)
    requires
        b < node_weights(*g).len(),
    ensures
        s@.to_multiset() == sources_of(edge_list(*g), b).to_multiset(),
{
    g.edges_directed(NodeIndex::new(b), petgraph::Direction::Incoming).map(|e| e.source().index()).collect()
}

/// `petgraph::algo::tarjan_scc`: the strongly connected components of the
/// graph, each as its nodes' indices, in postorder (reverse topological
/// order, as its documentation gives it): an edge between two components
/// leads to one listed earlier. Which of several such orders comes out, and
/// the order of the nodes inside a component, follow the graph's adjacency
/// lists, which the edge list does not fix; they are left unsaid.
#[verifier::external_body]
pub(crate) fn strongly_connected(g: &DiGraph<NodeIndex, ()>) -> (res: Vec<Vec<usize>>)
    ensures
        are_components(
            res@.map_values(|c: Vec<usize>| c@),
            node_weights(*g).len(),
            edge_list(*g),
        ),
        sinks_first(res@.map_values(|c: Vec<usize>| c@), edge_list(*g)),
{
    petgraph::algo::tarjan_scc(g).into_iter().map(|c| c.into_iter().map(|n| n.index()).collect()).collect()
}

/// `DiGraph::new`: a graph without nodes or edges.
#[verifier::external_body]
pub(crate) fn new_index_graph() -> (g: DiGraph<NodeIndex, ()>)
    ensures
        node_weights(g) == Seq::<usize>::empty(),
        edge_list(g) == Seq::<(usize, usize)>::empty(),
{
    DiGraph::new()
}

/// `Graph::add_node` with weight `NodeIndex::new(w)`: the node is added
/// last. The graph holds fewer than `u32::MAX` nodes (it panics at the
/// limit), and `w` fits its index type.
#[verifier::external_body]
pub(crate) fn add_index_node(g: &mut DiGraph<NodeIndex, ()>, w: usize) -> (i: usize)
    requires
        node_weights(*old(g)).len() < 4294967295,
        w < 4294967295,
    ensures
        node_weights(*final(g)) == node_weights(*old(g)).push(w),
        edge_list(*final(g)) == edge_list(*old(g)),
        i == node_weights(*old(g)).len(),
{
    g.add_node(NodeIndex::new(w)).index()
}

/// `Graph::add_edge` from node `a` to node `b`: the edge is added last. Both
/// nodes exist (it panics otherwise) and the graph holds fewer than
/// `u32::MAX` edges.
#[verifier::external_body]
pub(crate) fn add_unit_edge(g: &mut DiGraph<NodeIndex, ()>, a: usize, b: usize)
    requires
        a < node_weights(*old(g)).len(),
        b < node_weights(*old(g)).len(),
        edge_list(*old(g)).len() < 4294967295,
    ensures
        node_weights(*final(g)) == node_weights(*old(g)),
        edge_list(*final(g)) == edge_list(*old(g)).push((a, b)),
{
    g.add_edge(NodeIndex::new(a), NodeIndex::new(b), ());
}

/// Whether some start reaches `x`.
pub open spec fn reached_from(pairs: Seq<(usize, usize)>, starts: Seq<usize>, x: usize) -> bool {
    exists|s: usize| #[trigger] starts.contains(s) && reaches(pairs, s, x)
}

/// Mark every node among the first `n` that a start reaches along `pairs`.
pub fn reach_marks(n: usize, pairs: &Vec<(usize, usize)>, starts: &Vec<usize>) -> (res: Vec<bool>)
    requires
        edges_within(pairs@, n as nat),
        forall|i: int| 0 <= i < starts@.len() ==> #[trigger] starts@[i] < n,
    ensures
        res@.len() == n,
        forall|x: usize| x < n ==> (#[trigger] res@[x as int] <==> reached_from(pairs@, starts@, x)),
{
    let mut marks: Vec<bool> = Vec::new();
    let mut i: usize = 0;
    while i < n
        invariant
            i <= n,
            marks@.len() == i,
            forall|k: int| 0 <= k < i ==> !#[trigger] marks@[k],
        decreases n - i,
    {
        marks.push(false);
        i = i + 1;
    }
    let mut work: Vec<usize> = Vec::new();
    let mut i: usize = 0;
    while i < starts.len()
        invariant
            i <= starts@.len(),
            marks@.len() == n,
            forall|k: int| 0 <= k < starts@.len() ==> #[trigger] starts@[k] < n,
            forall|k: int| 0 <= k < i ==> #[trigger] marks@[starts@[k] as int],
            forall|x: usize| x < n && #[trigger] marks@[x as int] ==> reached_from(pairs@, starts@, x),
            forall|x: usize| x < n && marks@[x as int] ==> #[trigger] work@.contains(x),
            forall|k: int| 0 <= k < work@.len() ==> #[trigger] work@[k] < n && marks@[work@[k] as int],
        decreases starts.len() - i,
    {
        let s = starts[i];
        if !marks[s] {
            let ghost before = marks@;
            let ghost old_work = work@;
            marks.set(s, true);
            work.push(s);
            proof {
                assert(starts@.contains(s));
                let p = seq![s];
                assert(is_walk(pairs@, p));
                assert(reaches(pairs@, s, s));
                assert forall|x: usize| x < n && marks@[x as int] implies #[trigger] work@.contains(x) by {
                    if x == s {
                        assert(work@[work@.len() - 1] == s);
                    } else {
                        assert(before[x as int]);
                        assert(old_work.contains(x));
                        let q = choose|q: int| 0 <= q < old_work.len() && old_work[q] == x;
                        assert(work@[q] == x);
                    }
                }
                assert forall|k: int| 0 <= k < work@.len() implies #[trigger] work@[k] < n && marks@[work@[k] as int] by {
                    if k < old_work.len() {
                        assert(work@[k] == old_work[k]);
                    }
                }
            }
        }
        i = i + 1;
    }
    while work.len() > 0
        invariant
            marks@.len() == n,
            edges_within(pairs@, n as nat),
            forall|k: int| 0 <= k < starts@.len() ==> #[trigger] starts@[k] < n,
            forall|k: int| 0 <= k < starts@.len() ==> #[trigger] marks@[starts@[k] as int],
            forall|x: usize| x < n && #[trigger] marks@[x as int] ==> reached_from(pairs@, starts@, x),
            forall|k: int| 0 <= k < work@.len() ==> #[trigger] work@[k] < n && marks@[work@[k] as int],
            forall|a: usize, b: usize|
                a < n && marks@[a as int] && !work@.contains(a) && #[trigger] has_edge(pairs@, a, b)
                    ==> marks@[b as int],
        decreases pending_marks(marks@), work@.len(),
    {
        let ghost full_work = work@;
        let a = match work.pop() {
            Some(x) => x,
            None => 0,
        };
        let ghost w0 = work@.len();
        let ghost p0 = pending_marks(marks@);
        proof {
            assert(full_work == work@.push(a));
            assert(full_work[full_work.len() - 1] == a);
            assert forall|k: int| 0 <= k < work@.len() implies #[trigger] work@[k] < n && marks@[work@[k] as int] by {
                assert(work@[k] == full_work[k]);
            }
            assert forall|x: usize, b: usize|
                x < n && marks@[x as int] && !work@.contains(x) && x != a && #[trigger] has_edge(pairs@, x, b) implies marks@[b as int] by {
                if full_work.contains(x) {
                    let q = choose|q: int| 0 <= q < full_work.len() && full_work[q] == x;
                    if q < work@.len() {
                        assert(work@[q] == x);
                    }
                }
            }
        }
        let mut k: usize = 0;
        while k < pairs.len()
            invariant
                marks@.len() == n,
                edges_within(pairs@, n as nat),
                a < n,
                marks@[a as int],
                k <= pairs@.len(),
                forall|q: int| 0 <= q < starts@.len() ==> #[trigger] starts@[q] < n,
                forall|q: int| 0 <= q < starts@.len() ==> #[trigger] marks@[starts@[q] as int],
                forall|x: usize| x < n && #[trigger] marks@[x as int] ==> reached_from(pairs@, starts@, x),
                forall|q: int| 0 <= q < work@.len() ==> #[trigger] work@[q] < n && marks@[work@[q] as int],
                forall|x: usize, b: usize|
                    x < n && marks@[x as int] && !work@.contains(x) && x != a && #[trigger] has_edge(pairs@, x, b)
                        ==> marks@[b as int],
                forall|q: int| 0 <= q < k && (#[trigger] pairs@[q]).0 == a ==> marks@[pairs@[q].1 as int],
                work@.len() >= w0,
                pending_marks(marks@) + (work@.len() - w0) == p0,
            decreases pairs.len() - k,
        {
            let (x, y) = pairs[k];
            assert(pairs@[k as int].0 < n && pairs@[k as int].1 < n);
            if x == a && !marks[y] {
                let ghost before = marks@;
                let ghost old_work = work@;
                proof {
                    lemma_pending_mark(marks@, y as int);
                }
                marks.set(y, true);
                work.push(y);
                proof {
                    assert(has_edge(pairs@, a, y)) by {
                        assert(pairs@[k as int] == (a, y));
                    }
                    assert(reached_from(pairs@, starts@, a));
                    let s = choose|s: usize| #[trigger] starts@.contains(s) && reaches(pairs@, s, a);
                    lemma_edge_reaches(pairs@, a, y);
                    lemma_reaches_trans(pairs@, s, a, y);
                    assert(reached_from(pairs@, starts@, y));
                    assert forall|q: int| 0 <= q < k + 1 && (#[trigger] pairs@[q]).0 == a implies marks@[pairs@[q].1 as int] by {
                        if q < k {
                            assert(before[pairs@[q].1 as int]);
                        }
                    }
                    assert forall|q: int| 0 <= q < starts@.len() implies #[trigger] marks@[starts@[q] as int] by {
                        assert(before[starts@[q] as int]);
                    }
                    assert forall|z: usize| z < n && #[trigger] marks@[z as int] implies reached_from(pairs@, starts@, z) by {
                        if z != y {
                            assert(before[z as int]);
                        }
                    }
                    assert forall|q: int| 0 <= q < work@.len() implies #[trigger] work@[q] < n && marks@[work@[q] as int] by {
                        if q < old_work.len() {
                            assert(work@[q] == old_work[q]);
                            assert(before[old_work[q] as int]);
                        }
                    }
                    assert forall|z: usize, b: usize|
                        z < n && marks@[z as int] && !work@.contains(z) && z != a && #[trigger] has_edge(pairs@, z, b) implies marks@[b as int] by {
                        assert(z != y) by {
                            assert(work@[work@.len() - 1] == y);
                        }
                        assert(before[z as int]);
                        if old_work.contains(z) {
                            let q = choose|q: int| 0 <= q < old_work.len() && old_work[q] == z;
                            assert(work@[q] == z);
                        }
                        assert(before[b as int]);
                    }
                }
            }
            k = k + 1;
        }
        proof {
            assert forall|x: usize, b: usize|
                x < n && marks@[x as int] && !work@.contains(x) && #[trigger] has_edge(pairs@, x, b) implies marks@[b as int] by {
                if x == a {
                    let q = choose|q: int| 0 <= q < pairs@.len() && pairs@[q] == (x, b);
                    assert(pairs@[q].0 == a);
                }
            }
        }
    }
    proof {
        assert forall|x: usize| x < n implies (#[trigger] marks@[x as int] <==> reached_from(pairs@, starts@, x)) by {
            if reached_from(pairs@, starts@, x) {
                let s = choose|s: usize| #[trigger] starts@.contains(s) && reaches(pairs@, s, x);
                let p = choose|p: Seq<usize>| #[trigger] is_walk(pairs@, p) && p[0] == s && p.last() == x;
                let si = choose|si: int| 0 <= si < starts@.len() && starts@[si] == s;
                assert(marks@[starts@[si] as int]);
                assert forall|a2: usize, b2: usize| a2 < n && marks@[a2 as int] && #[trigger] has_edge(pairs@, a2, b2) implies marks@[b2 as int] by {
                    assert(!work@.contains(a2));
                }
                lemma_marked_walk(pairs@, marks@, n, p);
            }
        }
    }
    marks
}

/// The number of nodes not marked.
pub open spec fn pending_marks(marks: Seq<bool>) -> nat
    decreases marks.len(),
{
    if marks.len() == 0 {
        0
    } else {
        pending_marks(marks.drop_last()) + (if marks.last() {
            0nat
        } else {
            1nat
        })
    }
}

/// Marking one more node leaves one fewer unmarked.
pub proof fn lemma_pending_mark(marks: Seq<bool>, y: int)
    requires
        0 <= y < marks.len(),
        !marks[y],
    ensures
        pending_marks(marks.update(y, true)) + 1 == pending_marks(marks),
    decreases marks.len(),
{
    let after = marks.update(y, true);
    if y == marks.len() - 1 {
        assert(after.drop_last() =~= marks.drop_last());
    } else {
        assert(after.drop_last() =~= marks.drop_last().update(y, true));
        lemma_pending_mark(marks.drop_last(), y);
    }
}

/// Along a walk from a marked node, where marks are closed along the edges,
/// every node is marked.
pub proof fn lemma_marked_walk(pairs: Seq<(usize, usize)>, marks: Seq<bool>, n: usize, p: Seq<usize>)
    requires
        marks.len() == n,
        edges_within(pairs, n as nat),
        is_walk(pairs, p),
        p[0] < n,
        marks[p[0] as int],
        forall|a: usize, b: usize| a < n && marks[a as int] && #[trigger] has_edge(pairs, a, b) ==> marks[b as int],
    ensures
        marks[p.last() as int],
    decreases p.len(),
{
    if p.len() > 1 {
        let front = p.drop_last();
        assert forall|i: int| 0 <= i < front.len() - 1 implies #[trigger] step(pairs, front, i) by {
            assert(step(pairs, p, i));
        }
        lemma_marked_walk(pairs, marks, n, front);
        assert(step(pairs, p, p.len() - 2));
        let k = choose|k: int| 0 <= k < pairs.len() && pairs[k] == (front.last(), p.last());
        assert(pairs[k].0 < n);
    }
}

} // verus!
