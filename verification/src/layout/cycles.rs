//! Minimal-cycle-per-edge detection for directed graphs.
//!
//! For every edge inside a strongly connected component, the shortest cycle
//! that carries it is found by a breadth-first search inside the component;
//! the cycles are then deduplicated by the set of arcs they run through and
//! each rotated to start at its smallest node.

use petgraph::graph::{DiGraph, NodeIndex};
use vstd::prelude::*;

use crate::diagnose::order::{is_first_min, lemma_min_pos, min_pos};
use crate::digraph::{
    are_components, sinks_first, edge_list, edges_within, has_edge, in_comp, incoming, is_walk,
    lemma_edge_reaches, lemma_reaches_trans, lemma_sources_of, lemma_targets_of,
    lemma_walk_in_component, node_count, node_weights, outgoing, reaches, sources_of, step,
    strongly_connected, targets_of, weight,
};

verus! {

broadcast use vstd::seq_lib::group_to_multiset_ensures;

/// Whether `s` is in ascending order.
pub open spec fn ascending(s: Seq<usize>) -> bool {
    forall|i: int, j: int| 0 <= i <= j < s.len() ==> s[i] <= s[j]
}

/// The elements of `v` in ascending order.
pub fn sorted_copy(v: &Vec<usize>) -> (res: Vec<usize>)
    ensures
        ascending(res@),
        res@.len() == v@.len(),
        forall|x: usize| res@.contains(x) <==> v@.contains(x),
{
    let mut res: Vec<usize> = Vec::new();
    let mut i: usize = 0;
    while i < v.len()
        invariant
            i <= v@.len(),
            res@.len() == i,
            ascending(res@),
            forall|x: usize| res@.contains(x) <==> v@.take(i as int).contains(x),
        decreases v.len() - i,
    {
        let x = v[i];
        let mut p: usize = 0;
        while p < res.len() && res[p] <= x
            invariant
                p <= res@.len(),
                forall|q: int| 0 <= q < p ==> res@[q] <= x,
            decreases res.len() - p,
        {
            p = p + 1;
        }
        let ghost before = res@;
        res.insert(p, x);
        proof {
            assert(res@ == before.insert(p as int, x));
            assert forall|a: int, b: int| 0 <= a <= b < res@.len() implies res@[a] <= res@[b] by {
                if a < p && b < p {
                    assert(res@[a] == before[a] && res@[b] == before[b]);
                } else if a < p && b == p {
                    assert(res@[a] == before[a]);
                } else if a < p && b > p {
                    assert(res@[a] == before[a] && res@[b] == before[b - 1]);
                    assert(before[a] <= before[b - 1]);
                } else if a == p && b > p {
                    assert(res@[b] == before[b - 1]);
                    assert(p < before.len() && !(before[p as int] <= x));
                    assert(before[p as int] <= before[b - 1]);
                } else if a > p {
                    assert(res@[a] == before[a - 1] && res@[b] == before[b - 1]);
                }
            }
            let ghost next = v@.take(i + 1);
            let ghost prev = v@.take(i as int);
            assert(next =~= prev.push(x));
            assert forall|y: usize| res@.contains(y) <==> next.contains(y) by {
                if res@.contains(y) {
                    let q = choose|q: int| 0 <= q < res@.len() && res@[q] == y;
                    if q < p {
                        assert(before[q] == y);
                    } else if q > p {
                        assert(before[q - 1] == y);
                    }
                    if y != x {
                        assert(before.contains(y));
                        assert(prev.contains(y));
                        let r = choose|r: int| 0 <= r < prev.len() && prev[r] == y;
                        assert(next[r] == y);
                    } else {
                        assert(next[i as int] == y);
                    }
                }
                if next.contains(y) {
                    let r = choose|r: int| 0 <= r < next.len() && next[r] == y;
                    if r < i {
                        assert(prev[r] == y);
                        assert(before.contains(y));
                        let q = choose|q: int| 0 <= q < before.len() && before[q] == y;
                        if q < p {
                            assert(res@[q] == y);
                        } else {
                            assert(res@[q + 1] == y);
                        }
                    } else {
                        assert(res@[p as int] == y);
                    }
                }
            }
        }
        i = i + 1;
    }
    assert(v@.take(v@.len() as int) =~= v@);
    res
}

/// Whether `parent` and `dist` make a search tree rooted at `source` among
/// the nodes marked `inside`: the root is its own parent at distance 0,
/// every other reached node hangs off an edge from a reached node one step
/// nearer, and only nodes inside are reached.
pub open spec fn is_search_tree(
    edges: Seq<(usize, usize)>,
    inside: Seq<bool>,
    source: usize,
    parent: Seq<Option<usize>>,
    dist: Seq<nat>,
) -> bool {
    &&& parent.len() == inside.len()
    &&& dist.len() == inside.len()
    &&& source < parent.len()
    &&& parent[source as int] == Some(source)
    &&& dist[source as int] == 0
    &&& forall|w: int| 0 <= w < parent.len() && (#[trigger] parent[w]) is Some ==> inside[w]
    &&& forall|w: int|
        0 <= w < parent.len() && (#[trigger] parent[w]) is Some && w != source ==> {
            let u = parent[w]->0;
            &&& u < parent.len()
            &&& parent[u as int] is Some
            &&& has_edge(edges, u, w as usize)
            &&& dist[u as int] + 1 == dist[w]
        }
}

/// Whether every edge from a reached node to a node inside ends at a
/// reached node.
pub open spec fn is_closed(edges: Seq<(usize, usize)>, inside: Seq<bool>, parent: Seq<Option<usize>>) -> bool {
    forall|a: usize, b: usize|
        a < parent.len() && parent[a as int] is Some && b < parent.len() && inside[b as int]
            && #[trigger] has_edge(edges, a, b) ==> parent[b as int] is Some
}

/// Whether no edge from a reached node to a node inside leads further than
/// one step past it.
pub open spec fn is_tight(edges: Seq<(usize, usize)>, inside: Seq<bool>, parent: Seq<Option<usize>>, dist: Seq<nat>) -> bool {
    forall|a: usize, b: usize|
        a < parent.len() && parent[a as int] is Some && b < parent.len() && inside[b as int]
            && #[trigger] has_edge(edges, a, b) ==> dist[b as int] <= dist[a as int] + 1
}

/// Whether each reached node but the root hangs off the smallest-index
/// reached node one step nearer the root with an edge to it.
pub open spec fn is_min_parent(edges: Seq<(usize, usize)>, source: usize, parent: Seq<Option<usize>>, dist: Seq<nat>) -> bool {
    forall|x: usize, q: usize|
        x < parent.len() && x != source && parent[x as int] is Some && q < parent[x as int]->0 && q < parent.len()
            && parent[q as int] is Some && #[trigger] has_edge(edges, q, x) ==> dist[q as int] + 1 != dist[x as int]
}

/// The number of nodes not reached yet.
pub open spec fn pending(parent: Seq<Option<usize>>) -> nat
    decreases parent.len(),
{
    if parent.len() == 0 {
        0
    } else {
        pending(parent.drop_last()) + (if parent.last() is None {
            1nat
        } else {
            0nat
        })
    }
}

/// Reaching one more node leaves one fewer unreached.
pub proof fn lemma_pending_update(parent: Seq<Option<usize>>, w: int, x: usize)
    requires
        0 <= w < parent.len(),
        parent[w] is None,
    ensures
        pending(parent.update(w, Some(x))) + 1 == pending(parent),
    decreases parent.len(),
{
    let after = parent.update(w, Some(x));
    if w == parent.len() - 1 {
        assert(after.drop_last() =~= parent.drop_last());
    } else {
        assert(after.drop_last() =~= parent.drop_last().update(w, Some(x)));
        lemma_pending_update(parent.drop_last(), w, x);
    }
}

/// Every node reached along a walk inside from a reached node is reached,
/// where reaching is closed along edges inside.
pub proof fn lemma_closed_walk(
    edges: Seq<(usize, usize)>,
    inside: Seq<bool>,
    parent: Seq<Option<usize>>,
    p: Seq<usize>,
)
    requires
        is_closed(edges, inside, parent),
        is_walk(edges, p),
        p[0] < parent.len(),
        parent[p[0] as int] is Some,
        forall|i: int| 0 <= i < p.len() ==> #[trigger] p[i] < parent.len() && inside[p[i] as int],
    ensures
        parent[p.last() as int] is Some,
    decreases p.len(),
{
    if p.len() > 1 {
        let front = p.drop_last();
        assert forall|i: int| 0 <= i < front.len() - 1 implies #[trigger] step(edges, front, i) by {
            assert(step(edges, p, i));
        }
        assert forall|i: int| 0 <= i < front.len() implies #[trigger] front[i] < parent.len()
            && inside[front[i] as int] by {
            assert(p[i] < parent.len());
        }
        lemma_closed_walk(edges, inside, parent, front);
        assert(step(edges, p, p.len() - 2));
        assert(p[p.len() - 1] < parent.len());
        assert(has_edge(edges, front.last(), p.last()));
    }
}

/// A walk inside from the root of a closed, tight search tree ends at a
/// reached node no further from the root than the walk's edges.
pub proof fn lemma_tight_walk(
    edges: Seq<(usize, usize)>,
    inside: Seq<bool>,
    source: usize,
    parent: Seq<Option<usize>>,
    dist: Seq<nat>,
    p: Seq<usize>,
)
    requires
        is_search_tree(edges, inside, source, parent, dist),
        is_closed(edges, inside, parent),
        is_tight(edges, inside, parent, dist),
        is_walk(edges, p),
        p[0] == source,
        forall|i: int| 0 <= i < p.len() ==> #[trigger] p[i] < parent.len() && inside[p[i] as int],
    ensures
        parent[p.last() as int] is Some,
        dist[p.last() as int] <= p.len() - 1,
    decreases p.len(),
{
    if p.len() > 1 {
        let front = p.drop_last();
        assert forall|i: int| 0 <= i < front.len() - 1 implies #[trigger] step(edges, front, i) by {
            assert(step(edges, p, i));
        }
        assert forall|i: int| 0 <= i < front.len() implies #[trigger] front[i] < parent.len()
            && inside[front[i] as int] by {
            assert(p[i] < parent.len());
        }
        lemma_tight_walk(edges, inside, source, parent, dist, front);
        assert(step(edges, p, p.len() - 2));
        assert(p[p.len() - 1] < parent.len());
        assert(has_edge(edges, front.last(), p.last()));
    }
}

/// Whether `parent` and `dist` are what a breadth-first search from `source`
/// among the nodes marked `inside` gives when it takes nodes in ascending
/// index order: a closed, tight search tree whose nodes each hang off the
/// smallest-index node one step nearer the root.
pub open spec fn is_bfs(
    edges: Seq<(usize, usize)>,
    inside: Seq<bool>,
    source: usize,
    parent: Seq<Option<usize>>,
    dist: Seq<nat>,
) -> bool {
    &&& is_search_tree(edges, inside, source, parent, dist)
    &&& is_closed(edges, inside, parent)
    &&& is_tight(edges, inside, parent, dist)
    &&& is_min_parent(edges, source, parent, dist)
}

/// The parent of each node in the breadth-first tree from `source` among the
/// nodes marked `inside` (see [`is_bfs`]; it is unique, see
/// [`lemma_bfs_unique`]).
pub open spec fn bfs_tree(edges: Seq<(usize, usize)>, inside: Seq<bool>, source: usize) -> Seq<Option<usize>> {
    (choose|t: (Seq<Option<usize>>, Seq<nat>)| is_bfs(edges, inside, source, t.0, t.1)).0
}

/// Whether `p` runs from `source` to `target` down the tree `parent`: no
/// node twice, and each node after the first hangs off the one before it.
pub open spec fn is_tree_path(parent: Seq<Option<usize>>, source: usize, target: usize, p: Seq<usize>) -> bool {
    &&& p.len() >= 1
    &&& p[0] == source
    &&& p.last() == target
    &&& p.no_duplicates()
    &&& forall|i: int| 0 < i < p.len() ==> #[trigger] p[i] < parent.len() && parent[p[i] as int] == Some(p[i - 1])
}

/// The path from `source` to `target` down the tree `parent` (unique in a
/// search tree, see [`lemma_tree_path_unique`]).
pub open spec fn tree_path(parent: Seq<Option<usize>>, source: usize, target: usize) -> Seq<usize> {
    choose|p: Seq<usize>| is_tree_path(parent, source, target, p)
}

/// The cycle that the in-edge `u -> v` gets among the nodes marked `inside`:
/// the path from `v` to `u` down the breadth-first tree from `v`, which the
/// edge closes.
pub open spec fn tree_cycle(edges: Seq<(usize, usize)>, inside: Seq<bool>, v: usize, u: usize) -> Seq<usize> {
    tree_path(bfs_tree(edges, inside, v), v, u)
}

/// Each reached node of a search tree lies at the end of a walk inside from
/// the root with one node more than its distance.
pub proof fn lemma_tree_walk(
    edges: Seq<(usize, usize)>,
    inside: Seq<bool>,
    source: usize,
    parent: Seq<Option<usize>>,
    dist: Seq<nat>,
    x: usize,
) -> (p: Seq<usize>)
    requires
        is_search_tree(edges, inside, source, parent, dist),
        x < parent.len(),
        parent[x as int] is Some,
    ensures
        is_walk(edges, p),
        p[0] == source,
        p.last() == x,
        p.len() == dist[x as int] + 1,
        forall|i: int| 0 <= i < p.len() ==> #[trigger] p[i] < parent.len() && inside[p[i] as int],
    decreases dist[x as int],
{
    if x == source {
        let p = seq![source];
        assert(p[0] == source);
        p
    } else {
        let u = parent[x as int]->0;
        let q = lemma_tree_walk(edges, inside, source, parent, dist, u);
        let p = q.push(x);
        assert forall|i: int| 0 <= i < p.len() - 1 implies #[trigger] step(edges, p, i) by {
            if i < q.len() - 1 {
                assert(step(edges, q, i));
            }
        }
        assert forall|i: int| 0 <= i < p.len() implies #[trigger] p[i] < parent.len() && inside[p[i] as int] by {
            if i < q.len() {
                assert(p[i] == q[i]);
            }
        }
        p
    }
}

/// Breadth-first search in ascending order has one outcome: any two trees
/// that are [`is_bfs`] from the same root among the same nodes agree.
pub proof fn lemma_bfs_unique(
    edges: Seq<(usize, usize)>,
    inside: Seq<bool>,
    source: usize,
    p1: Seq<Option<usize>>,
    d1: Seq<nat>,
    p2: Seq<Option<usize>>,
    d2: Seq<nat>,
)
    requires
        inside.len() <= usize::MAX,
        is_bfs(edges, inside, source, p1, d1),
        is_bfs(edges, inside, source, p2, d2),
    ensures
        p1 == p2,
{
    assert forall|x: usize| x < p1.len() && (#[trigger] p1[x as int]) is Some implies p2[x as int] is Some
        && d2[x as int] <= d1[x as int] by {
        let walk = lemma_tree_walk(edges, inside, source, p1, d1, x);
        lemma_tight_walk(edges, inside, source, p2, d2, walk);
    }
    assert forall|x: usize| x < p2.len() && (#[trigger] p2[x as int]) is Some implies p1[x as int] is Some
        && d1[x as int] <= d2[x as int] by {
        let walk = lemma_tree_walk(edges, inside, source, p2, d2, x);
        lemma_tight_walk(edges, inside, source, p1, d1, walk);
    }
    assert forall|xu: usize| xu < p1.len() implies p1[xu as int] == p2[xu as int] by {
        let x = xu as int;
        if p1[x] is Some && xu != source {
            assert(p2[xu as int] is Some);
            let u1 = p1[x]->0;
            let u2 = p2[x]->0;
            assert(p1[u1 as int] is Some && p2[u2 as int] is Some);
            assert(p2[u1 as int] is Some && p1[u2 as int] is Some);
            assert(d1[u2 as int] == d2[u2 as int]);
            assert(d1[u1 as int] == d2[u1 as int]);
            assert(d1[x] == d2[x]);
            if u2 < u1 {
                assert(has_edge(edges, u2, xu));
                assert(d1[u2 as int] + 1 != d1[xu as int]);
            }
            if u1 < u2 {
                assert(has_edge(edges, u1, xu));
                assert(d2[u1 as int] + 1 != d2[xu as int]);
            }
        } else if p1[x] is None {
            if p2[x] is Some {
                assert(p1[xu as int] is Some);
            }
        }
    }
    assert forall|x: int| 0 <= x < p1.len() implies p1[x] == p2[x] by {
        assert(p1[(x as usize) as int] == p2[(x as usize) as int]);
    }
    assert(p1 =~= p2);
}

/// Down a search tree, the `i`-th node of a tree path from the root lies
/// `i` steps from it.
pub proof fn lemma_tree_path_dist(
    edges: Seq<(usize, usize)>,
    inside: Seq<bool>,
    source: usize,
    parent: Seq<Option<usize>>,
    dist: Seq<nat>,
    target: usize,
    p: Seq<usize>,
    i: int,
)
    requires
        is_search_tree(edges, inside, source, parent, dist),
        is_tree_path(parent, source, target, p),
        0 <= i < p.len(),
    ensures
        p[i] < parent.len(),
        parent[p[i] as int] is Some,
        dist[p[i] as int] == i,
    decreases i,
{
    if i > 0 {
        lemma_tree_path_dist(edges, inside, source, parent, dist, target, p, i - 1);
        assert(p[i] != p[0]);
        assert(p[i] < parent.len() && parent[p[i] as int] == Some(p[i - 1]));
    }
}

/// Two tree paths to the same node of a search tree agree from the `i`-th
/// node on.
pub proof fn lemma_tree_path_agree(
    parent: Seq<Option<usize>>,
    source: usize,
    target: usize,
    p: Seq<usize>,
    q: Seq<usize>,
    i: int,
)
    requires
        is_tree_path(parent, source, target, p),
        is_tree_path(parent, source, target, q),
        p.len() == q.len(),
        0 <= i < p.len(),
    ensures
        p[i] == q[i],
    decreases p.len() - i,
{
    if i < p.len() - 1 {
        lemma_tree_path_agree(parent, source, target, p, q, i + 1);
        assert(parent[p[i + 1] as int] == Some(p[i]));
        assert(parent[q[i + 1] as int] == Some(q[i]));
    }
}

/// In a search tree a node has one tree path from the root.
pub proof fn lemma_tree_path_unique(
    edges: Seq<(usize, usize)>,
    inside: Seq<bool>,
    source: usize,
    parent: Seq<Option<usize>>,
    dist: Seq<nat>,
    target: usize,
    p: Seq<usize>,
    q: Seq<usize>,
)
    requires
        is_search_tree(edges, inside, source, parent, dist),
        is_tree_path(parent, source, target, p),
        is_tree_path(parent, source, target, q),
    ensures
        p == q,
{
    lemma_tree_path_dist(edges, inside, source, parent, dist, target, p, p.len() - 1);
    lemma_tree_path_dist(edges, inside, source, parent, dist, target, q, q.len() - 1);
    assert forall|i: int| 0 <= i < p.len() implies p[i] == q[i] by {
        lemma_tree_path_agree(parent, source, target, p, q, i);
    }
    assert(p =~= q);
}

/// A tree path found in a breadth-first tree is the tree cycle of its ends.
pub proof fn lemma_tree_cycle(
    edges: Seq<(usize, usize)>,
    inside: Seq<bool>,
    v: usize,
    u: usize,
    parent: Seq<Option<usize>>,
    dist: Seq<nat>,
    p: Seq<usize>,
)
    requires
        inside.len() <= usize::MAX,
        is_bfs(edges, inside, v, parent, dist),
        is_tree_path(parent, v, u, p),
    ensures
        tree_cycle(edges, inside, v, u) == p,
{
    let t = choose|t: (Seq<Option<usize>>, Seq<nat>)| is_bfs(edges, inside, v, t.0, t.1);
    assert(is_bfs(edges, inside, v, (parent, dist).0, (parent, dist).1));
    lemma_bfs_unique(edges, inside, v, t.0, t.1, parent, dist);
    assert(bfs_tree(edges, inside, v) == parent);
    let q = tree_path(parent, v, u);
    assert(is_tree_path(parent, v, u, q));
    lemma_tree_path_unique(edges, inside, v, parent, dist, u, p, q);
}

/// The nodes of `v` that are marked inside, in order, but for `skip`.
fn inside_only(v: &Vec<usize>, inside: &Vec<bool>, skip: Option<usize>) -> (res: Vec<usize>)
    requires
        forall|k: int| 0 <= k < v@.len() ==> #[trigger] v@[k] < inside@.len(),
    ensures
        forall|x: usize| res@.contains(x) <==> (v@.contains(x) && inside@[x as int] && skip != Some(x)),
        forall|k: int| 0 <= k < res@.len() ==> #[trigger] res@[k] < inside@.len(),
{
    let mut res: Vec<usize> = Vec::new();
    let mut i: usize = 0;
    while i < v.len()
        invariant
            i <= v@.len(),
            forall|k: int| 0 <= k < v@.len() ==> #[trigger] v@[k] < inside@.len(),
            forall|x: usize| res@.contains(x) <==> (v@.take(i as int).contains(x) && inside@[x as int] && skip != Some(x)),
            forall|k: int| 0 <= k < res@.len() ==> #[trigger] res@[k] < inside@.len(),
        decreases v.len() - i,
    {
        let x = v[i];
        let ghost before = res@;
        let ghost prev = v@.take(i as int);
        let ghost next = v@.take(i + 1);
        assert(next =~= prev.push(x));
        let skipped = match skip {
            Some(z) => z == x,
            None => false,
        };
        if inside[x] && !skipped {
            res.push(x);
        }
        assert forall|y: usize| res@.contains(y) <==> (next.contains(y) && inside@[y as int] && skip != Some(y)) by {
            if res@.contains(y) {
                let q = choose|q: int| 0 <= q < res@.len() && res@[q] == y;
                if q < before.len() {
                    assert(before[q] == y);
                    assert(before.contains(y));
                    let r = choose|r: int| 0 <= r < prev.len() && prev[r] == y;
                    assert(next[r] == y);
                } else {
                    assert(next[i as int] == y);
                }
            }
            if next.contains(y) && inside@[y as int] && skip != Some(y) {
                let r = choose|r: int| 0 <= r < next.len() && next[r] == y;
                if r < i {
                    assert(prev[r] == y);
                    let q = choose|q: int| 0 <= q < before.len() && before[q] == y;
                    assert(res@[q] == y);
                } else {
                    assert(res@[res@.len() - 1] == y);
                }
            }
        }
        i = i + 1;
    }
    assert(v@.take(v@.len() as int) =~= v@);
    res
}

/// Level-synchronous forward search from `source`, restricted to the nodes
/// marked inside. Gives a parent per reached node (the source's parent is
/// itself). Each frontier is taken in ascending index order and each node's
/// targets too, so a node's parent is the smallest-index predecessor at the
/// shortest distance.
fn bfs_parents(g: &DiGraph<NodeIndex, ()>, n: usize, source: usize, inside: &Vec<bool>) -> (res: (
    Vec<Option<usize>>,
    Ghost<Seq<nat>>,
))
    requires
        n == node_weights(*g).len(),
        edges_within(edge_list(*g), n as nat),
        inside@.len() == n,
        source < n,
        inside@[source as int],
    ensures
        is_search_tree(edge_list(*g), inside@, source, res.0@, res.1@),
        is_closed(edge_list(*g), inside@, res.0@),
        is_tight(edge_list(*g), inside@, res.0@, res.1@),
        is_min_parent(edge_list(*g), source, res.0@, res.1@),
{
    let ghost edges = edge_list(*g);
    let mut parent: Vec<Option<usize>> = Vec::new();
    let mut i: usize = 0;
    while i < n
        invariant
            i <= n,
            parent@.len() == i,
            forall|k: int| 0 <= k < i ==> #[trigger] parent@[k] is None,
        decreases n - i,
    {
        parent.push(None);
        i = i + 1;
    }
    proof {
        lemma_pending_update(parent@, source as int, source);
    }
    parent.set(source, Some(source));
    let ghost mut dist: Seq<nat> = Seq::new(n as nat, |_k: int| 0nat);
    let ghost mut level: nat = 0;
    let mut frontier: Vec<usize> = Vec::new();
    frontier.push(source);
    proof {
        assert(frontier@[0] == source);
        assert forall|a: usize| a < n && parent@[a as int] is Some implies frontier@.contains(a) by {
            if a != source {
                assert(parent@[a as int] is None);
            }
        }
    }
    while frontier.len() > 0
        invariant
            n == node_weights(*g).len(),
            edges == edge_list(*g),
            edges_within(edges, n as nat),
            inside@.len() == n,
            is_search_tree(edges, inside@, source, parent@, dist),
            forall|k: int|
                0 <= k < frontier@.len() ==> #[trigger] frontier@[k] < n && parent@[frontier@[k] as int] is Some
                    && dist[frontier@[k] as int] == level,
            forall|a: usize, b: usize|
                a < n && parent@[a as int] is Some && !frontier@.contains(a) && b < n && inside@[b as int]
                    && #[trigger] has_edge(edges, a, b) ==> parent@[b as int] is Some && dist[b as int] <= dist[a as int] + 1,
            forall|a: usize| a < n && #[trigger] parent@[a as int] is Some ==> dist[a as int] <= level,
            forall|a: usize| a < n && #[trigger] parent@[a as int] is Some && dist[a as int] == level ==> frontier@.contains(a),
            is_min_parent(edges, source, parent@, dist),
        decreases pending(parent@) + (if frontier@.len() > 0 {
            1nat
        } else {
            0nat
        }),
    {
        let ghost pending_before = pending(parent@);
        let sorted = sorted_copy(&frontier);
        let mut next: Vec<usize> = Vec::new();
        proof {
            assert forall|q: int| 0 <= q < sorted@.len() implies #[trigger] sorted@[q] < n && parent@[sorted@[q] as int] is Some
                && dist[sorted@[q] as int] == level by {
                assert(sorted@.contains(sorted@[q]));
                assert(frontier@.contains(sorted@[q]));
                let r = choose|r: int| 0 <= r < frontier@.len() && frontier@[r] == sorted@[q];
                assert(frontier@[r] < n);
            }
            assert(sorted@.skip(0) =~= sorted@);
        }
        let mut k: usize = 0;
        while k < sorted.len()
            invariant
                n == node_weights(*g).len(),
                edges == edge_list(*g),
                edges_within(edges, n as nat),
                inside@.len() == n,
                k <= sorted@.len(),
                is_search_tree(edges, inside@, source, parent@, dist),
                forall|q: int|
                    0 <= q < sorted@.len() ==> #[trigger] sorted@[q] < n && parent@[sorted@[q] as int] is Some
                        && dist[sorted@[q] as int] == level,
                forall|q: int|
                    0 <= q < next@.len() ==> #[trigger] next@[q] < n && parent@[next@[q] as int] is Some
                        && dist[next@[q] as int] == level + 1,
                forall|a: usize, b: usize|
                    a < n && parent@[a as int] is Some && !sorted@.skip(k as int).contains(a)
                        && !next@.contains(a) && b < n && inside@[b as int] && #[trigger] has_edge(
                        edges,
                        a,
                        b,
                    ) ==> parent@[b as int] is Some && dist[b as int] <= dist[a as int] + 1,
                forall|a: usize| a < n && #[trigger] parent@[a as int] is Some ==> dist[a as int] <= level + 1,
                ascending(sorted@),
                forall|a: usize| a < n && #[trigger] parent@[a as int] is Some && dist[a as int] == level ==> sorted@.contains(a),
                forall|a: usize| a < n && #[trigger] parent@[a as int] is Some && dist[a as int] == level + 1 ==> next@.contains(a),
                is_min_parent(edges, source, parent@, dist),
                pending(parent@) + next@.len() == pending_before,
            decreases sorted.len() - k,
        {
            let u = sorted[k];
            let targets = outgoing(g, u);
            proof {
                assert forall|q: int| 0 <= q < targets@.len() implies #[trigger] targets@[q] < inside@.len() by {
                    let t = targets@[q];
                    assert(targets@.contains(t));
                    assert(targets@.to_multiset().count(t) > 0);
                    assert(targets_of(edges, u).contains(t));
                    lemma_targets_of(edges, u, t);
                    let e = choose|e: int| 0 <= e < edges.len() && edges[e] == (u, t);
                    assert(edges[e].1 < n);
                }
            }
            let kept = inside_only(&targets, inside, None);
            let candidates = sorted_copy(&kept);
            proof {
                assert forall|x: usize| candidates@.contains(x) implies x < n && inside@[x as int] && has_edge(edges, u, x) by {
                    assert(kept@.contains(x));
                    assert(targets@.contains(x));
                    assert(targets@.to_multiset().count(x) > 0);
                    assert(targets_of(edges, u).contains(x));
                    lemma_targets_of(edges, u, x);
                }
            }
            let mut m: usize = 0;
            while m < candidates.len()
                invariant
                    n == node_weights(*g).len(),
                    edges == edge_list(*g),
                    inside@.len() == n,
                    k < sorted@.len(),
                    u == sorted@[k as int],
                    m <= candidates@.len(),
                    forall|x: usize| candidates@.contains(x) ==> x < n && inside@[x as int] && has_edge(edges, u, x),
                    is_search_tree(edges, inside@, source, parent@, dist),
                    forall|q: int|
                        0 <= q < sorted@.len() ==> #[trigger] sorted@[q] < n && parent@[sorted@[q] as int] is Some
                            && dist[sorted@[q] as int] == level,
                    forall|q: int|
                        0 <= q < next@.len() ==> #[trigger] next@[q] < n && parent@[next@[q] as int] is Some
                            && dist[next@[q] as int] == level + 1,
                    forall|a: usize, b: usize|
                        a < n && parent@[a as int] is Some && !sorted@.skip(k as int).contains(a)
                            && !next@.contains(a) && b < n && inside@[b as int] && #[trigger] has_edge(
                            edges,
                            a,
                            b,
                        ) ==> parent@[b as int] is Some && dist[b as int] <= dist[a as int] + 1,
                    forall|a: usize| a < n && #[trigger] parent@[a as int] is Some ==> dist[a as int] <= level + 1,
                    forall|q: int| 0 <= q < m ==> #[trigger] parent@[candidates@[q] as int] is Some && dist[candidates@[q] as int] <= level + 1,
                    ascending(sorted@),
                    forall|a: usize| a < n && #[trigger] parent@[a as int] is Some && dist[a as int] == level ==> sorted@.contains(a),
                    forall|a: usize| a < n && #[trigger] parent@[a as int] is Some && dist[a as int] == level + 1 ==> next@.contains(a),
                    is_min_parent(edges, source, parent@, dist),
                    pending(parent@) + next@.len() == pending_before,
                decreases candidates.len() - m,
            {
                let w = candidates[m];
                assert(candidates@.contains(w));
                let ghost old_parent = parent@;
                let ghost old_next = next@;
                if parent[w].is_none() {
                    proof {
                        lemma_pending_update(parent@, w as int, u);
                    }
                    parent.set(w, Some(u));
                    let ghost old_dist = dist;
                    proof {
                        dist = dist.update(w as int, level + 1);
                    }
                    next.push(w);
                    proof {
                        assert(next@[next@.len() - 1] == w);
                        assert forall|x: usize, q: usize|
                            x < parent@.len() && x != source && parent@[x as int] is Some && q < parent@[x as int]->0
                                && q < parent@.len() && parent@[q as int] is Some && #[trigger] has_edge(edges, q, x)
                                implies dist[q as int] + 1 != dist[x as int] by {
                            if x == w {
                                if q != w && dist[q as int] + 1 == dist[x as int] {
                                    assert(old_parent[q as int] is Some);
                                    assert(old_dist[q as int] == level);
                                    assert(sorted@.contains(q));
                                    let i = choose|i: int| 0 <= i < sorted@.len() && sorted@[i] == q;
                                    assert(i < k) by {
                                        if i >= k {
                                            assert(sorted@[k as int] <= sorted@[i]);
                                        }
                                    }
                                    assert(!sorted@.skip(k as int).contains(q)) by {
                                        if sorted@.skip(k as int).contains(q) {
                                            let j = choose|j: int| 0 <= j < sorted@.skip(k as int).len() && sorted@.skip(k as int)[j] == q;
                                            assert(sorted@[k as int] <= sorted@[k + j]);
                                        }
                                    }
                                    assert(!old_next.contains(q)) by {
                                        if old_next.contains(q) {
                                            let j = choose|j: int| 0 <= j < old_next.len() && old_next[j] == q;
                                            assert(old_dist[old_next[j] as int] == level + 1);
                                        }
                                    }
                                    assert(candidates@.contains(w));
                                    assert(old_parent[w as int] is Some);
                                }
                            } else if q == w {
                                assert(old_parent[x as int] is Some);
                            } else {
                                assert(old_parent[x as int] is Some && old_parent[q as int] is Some);
                            }
                        }
                        assert forall|a: usize| a < n && #[trigger] parent@[a as int] is Some && dist[a as int] == level + 1 implies next@.contains(a) by {
                            if a != w {
                                assert(old_parent[a as int] is Some);
                                let j = choose|j: int| 0 <= j < old_next.len() && old_next[j] == a;
                                assert(next@[j] == a);
                            }
                        }
                        assert forall|a: usize, b: usize|
                            a < n && parent@[a as int] is Some && !sorted@.skip(k as int).contains(a)
                                && !next@.contains(a) && b < n && inside@[b as int] && #[trigger] has_edge(
                                edges,
                                a,
                                b,
                            ) implies parent@[b as int] is Some && dist[b as int] <= dist[a as int] + 1 by {
                            assert(a != w);
                            assert(old_parent[a as int] is Some);
                            assert forall|q: int| 0 <= q < old_next.len() implies old_next[q] != a by {
                                assert(next@[q] == old_next[q]);
                            }
                            assert(!old_next.contains(a));
                            assert(old_parent[b as int] is Some);
                        }
                        assert forall|q: int| 0 <= q < next@.len() implies #[trigger] next@[q] < n
                            && parent@[next@[q] as int] is Some && dist[next@[q] as int] == level + 1 by {
                            if q < old_next.len() {
                                assert(next@[q] == old_next[q]);
                                assert(old_parent[old_next[q] as int] is Some);
                            }
                        }
                    }
                }
                proof {
                    assert forall|q: int| 0 <= q < m + 1 implies #[trigger] parent@[candidates@[q] as int] is Some && dist[candidates@[q] as int] <= level + 1 by {
                        let x = candidates@[q];
                        if q < m {
                            assert(old_parent[x as int] is Some);
                        } else {
                            assert(x == w);
                        }
                        assert(candidates@.contains(x));
                        assert(x < n);
                        assert(old_parent[x as int] is Some ==> parent@[x as int] is Some);
                    }
                }
                m = m + 1;
            }
            proof {
                assert forall|b: usize| b < n && inside@[b as int] && has_edge(edges, u, b) implies parent@[b as int] is Some && dist[b as int] <= dist[u as int] + 1 by {
                    lemma_targets_of(edges, u, b);
                    assert(targets_of(edges, u).to_multiset().count(b) > 0);
                    assert(targets@.contains(b));
                    assert(candidates@.contains(b));
                    let q = choose|q: int| 0 <= q < candidates@.len() && candidates@[q] == b;
                    assert(parent@[candidates@[q] as int] is Some);
                }
                let ghost rest = sorted@.skip(k as int);
                let ghost later = sorted@.skip(k + 1);
                assert forall|a: usize| later.contains(a) implies rest.contains(a) by {
                    let q = choose|q: int| 0 <= q < later.len() && later[q] == a;
                    assert(rest[q + 1] == a);
                }
                assert forall|a: usize| rest.contains(a) && a != u implies later.contains(a) by {
                    let q = choose|q: int| 0 <= q < rest.len() && rest[q] == a;
                    assert(q != 0);
                    assert(later[q - 1] == a);
                }
            }
            k = k + 1;
        }
        proof {
            assert forall|a: usize| !sorted@.skip(k as int).contains(a) by {}
            assert forall|a: usize| frontier@.contains(a) <==> sorted@.contains(a) by {}
            level = level + 1;
        }
        frontier = next;
    }
    (parent, Ghost(dist))
}

/// The path `source ⇝ target` along the search tree, `None` where `target`
/// was not reached. The path is a walk without repeated nodes, all inside.
fn reconstruct(
    parent: &Vec<Option<usize>>,
    source: usize,
    target: usize,
    Ghost(edges): Ghost<Seq<(usize, usize)>>,
    Ghost(inside): Ghost<Seq<bool>>,
    Ghost(dist): Ghost<Seq<nat>>,
) -> (res: Option<Vec<usize>>)
    requires
        is_search_tree(edges, inside, source, parent@, dist),
        target < parent@.len(),
    ensures
        res is None <==> parent@[target as int] is None,
        res matches Some(p) ==> {
            &&& is_walk(edges, p@)
            &&& p@[0] == source
            &&& p@.last() == target
            &&& p@.no_duplicates()
            &&& forall|i: int| 0 <= i < p@.len() ==> #[trigger] p@[i] < parent@.len() && inside[p@[i] as int]
            &&& p@.len() == dist[target as int] + 1
            &&& is_tree_path(parent@, source, target, p@)
        },
{
    if parent[target].is_none() {
        return None;
    }
    let mut back: Vec<usize> = Vec::new();
    back.push(target);
    let mut current = target;
    while current != source
        invariant
            is_search_tree(edges, inside, source, parent@, dist),
            target < parent@.len(),
            back@.len() >= 1,
            back@[0] == target,
            back@.last() == current,
            current < parent@.len(),
            forall|i: int|
                0 <= i < back@.len() ==> #[trigger] back@[i] < parent@.len() && parent@[back@[i] as int] is Some
                    && dist[back@[i] as int] + i == dist[target as int],
            forall|i: int| 0 <= i < back@.len() - 1 ==> has_edge(edges, #[trigger] back@[i + 1], back@[i]),
            forall|i: int| 0 <= i < back@.len() - 1 ==> parent@[#[trigger] back@[i] as int] == Some(back@[i + 1]),
        decreases dist[current as int],
    {
        let ghost before = back@;
        let next = match parent[current] {
            Some(p) => p,
            None => current,
        };
        assert(parent@[current as int] is Some);
        assert(before[before.len() - 1] == current);
        current = next;
        back.push(current);
        proof {
            assert forall|i: int| 0 <= i < back@.len() - 1 implies has_edge(edges, #[trigger] back@[i + 1], back@[i]) by {
                if i < before.len() - 1 {
                    assert(back@[i + 1] == before[i + 1] && back@[i] == before[i]);
                }
            }
            assert forall|i: int| 0 <= i < back@.len() - 1 implies parent@[#[trigger] back@[i] as int] == Some(back@[i + 1]) by {
                if i < before.len() - 1 {
                    assert(back@[i + 1] == before[i + 1] && back@[i] == before[i]);
                    assert(parent@[before[i] as int] == Some(before[i + 1]));
                }
            }
        }
    }
    let ghost len = back@.len();
    assert(dist[current as int] == 0);
    assert(dist[target as int] + 1 == len);
    let mut path: Vec<usize> = Vec::new();
    let mut k: usize = back.len();
    while k > 0
        invariant
            k <= back@.len(),
            back@.len() == len,
            path@.len() + k == len,
            forall|i: int| 0 <= i < path@.len() ==> #[trigger] path@[i] == back@[len - 1 - i],
        decreases k,
    {
        k = k - 1;
        path.push(back[k]);
    }
    proof {
        assert forall|i: int| 0 <= i < path@.len() implies #[trigger] path@[i] < parent@.len() && inside[path@[i] as int]
            && dist[path@[i] as int] == i by {
            assert(path@[i] == back@[len - 1 - i]);
            assert(back@[len - 1 - i] < parent@.len());
        }
        assert forall|i: int| 0 <= i < path@.len() - 1 implies #[trigger] step(edges, path@, i) by {
            assert(path@[i] == back@[len - 1 - i] && path@[i + 1] == back@[len - 1 - (i + 1)]);
            assert(has_edge(edges, back@[len - 2 - i + 1], back@[len - 2 - i]));
        }
        assert forall|i: int, j: int| 0 <= i < path@.len() && 0 <= j < path@.len() && i != j implies path@[i] != path@[j] by {
            assert(dist[path@[i] as int] == i);
            assert(dist[path@[j] as int] == j);
        }
        assert(path@[0] == back@[len - 1]);
        assert(path@.last() == back@[0]);
        assert forall|i: int| 0 < i < path@.len() implies #[trigger] path@[i] < parent@.len()
            && parent@[path@[i] as int] == Some(path@[i - 1]) by {
            let j = len - 1 - i;
            assert(path@[i] == back@[j]);
            assert(path@[i - 1] == back@[j + 1]);
            assert(parent@[back@[j] as int] == Some(back@[j + 1]));
        }
    }
    Some(path)
}

/// The position after `j` on a cycle of `len` nodes: the first after the last.
pub open spec fn next_pos(len: int, j: int) -> int {
    if j + 1 < len {
        j + 1
    } else {
        0
    }
}

/// The `j`-th arc of a cycle: from its `j`-th node to the next, the last
/// closing back to the first.
pub open spec fn arc(c: Seq<usize>, j: int) -> (usize, usize) {
    (c[j], c[next_pos(c.len() as int, j)])
}

/// The arcs a cycle runs through.
pub open spec fn arc_set(c: Seq<usize>) -> Set<(usize, usize)> {
    Set::new(|e: (usize, usize)| exists|j: int| 0 <= j < c.len() && #[trigger] arc(c, j) == e)
}

/// Whether the `j`-th arc of `c` is an edge.
pub open spec fn cycle_step(edges: Seq<(usize, usize)>, c: Seq<usize>, j: int) -> bool {
    has_edge(edges, c[j], c[next_pos(c.len() as int, j)])
}

/// Whether `c` is an elementary cycle: two nodes or more, none twice, each
/// joined to the next and the last to the first.
pub open spec fn is_simple_cycle(edges: Seq<(usize, usize)>, c: Seq<usize>) -> bool {
    &&& c.len() >= 2
    &&& c.no_duplicates()
    &&& forall|j: int| 0 <= j < c.len() ==> #[trigger] cycle_step(edges, c, j)
}

/// The weights of a sequence of nodes.
pub open spec fn lift(w: Seq<usize>, c: Seq<usize>) -> Seq<usize> {
    c.map_values(|x: usize| w[x as int])
}

/// Whether `path` is the weights of an elementary cycle of the graph.
pub open spec fn is_graph_cycle(w: Seq<usize>, edges: Seq<(usize, usize)>, path: Seq<usize>) -> bool {
    exists|loc: Seq<usize>|
        #[trigger] is_simple_cycle(edges, loc) && (forall|i: int| 0 <= i < loc.len() ==> #[trigger] loc[i]
            < w.len()) && path == lift(w, loc)
}

/// Where the `j`-th node of `c` rotated left by `p` stood in `c`.
pub open spec fn shift(len: int, p: int, j: int) -> int {
    if j + p < len {
        j + p
    } else {
        j + p - len
    }
}

/// `c` rotated left by `p`.
pub open spec fn rotated(c: Seq<usize>, p: int) -> Seq<usize> {
    c.skip(p) + c.take(p)
}

/// `c` rotated to start at its first smallest node.
pub open spec fn canonical(c: Seq<usize>) -> Seq<usize> {
    rotated(c, min_pos(c))
}

/// Rotation moves each node and each arc to a shifted position.
pub proof fn lemma_rotated(c: Seq<usize>, p: int)
    requires
        0 <= p < c.len(),
    ensures
        rotated(c, p).len() == c.len(),
        forall|j: int| 0 <= j < c.len() ==> #[trigger] rotated(c, p)[j] == c[shift(c.len() as int, p, j)],
        forall|j: int| 0 <= j < c.len() ==> #[trigger] arc(rotated(c, p), j) == arc(c, shift(c.len() as int, p, j)),
        forall|j: int| 0 <= j < c.len() ==> 0 <= #[trigger] shift(c.len() as int, p, j) < c.len(),
{
    let r = rotated(c, p);
    let len = c.len() as int;
    assert forall|j: int| 0 <= j < len implies #[trigger] r[j] == c[shift(len, p, j)] by {
        if j < len - p {
            assert(r[j] == c.skip(p)[j]);
        } else {
            assert(r[j] == c.take(p)[j - (len - p)]);
        }
    }
    assert forall|j: int| 0 <= j < len implies #[trigger] arc(r, j) == arc(c, shift(len, p, j)) by {
        assert(r[j] == c[shift(len, p, j)]);
        let nj = next_pos(len, j);
        assert(r[nj] == c[shift(len, p, nj)]);
        assert(shift(len, p, nj) == next_pos(len, shift(len, p, j)));
    }
}

/// Rotation keeps the arcs of a cycle.
pub proof fn lemma_rotated_arcs(c: Seq<usize>, p: int)
    requires
        0 <= p < c.len(),
    ensures
        arc_set(rotated(c, p)) == arc_set(c),
{
    lemma_rotated(c, p);
    let r = rotated(c, p);
    let len = c.len() as int;
    assert forall|e: (usize, usize)| arc_set(r).contains(e) <==> arc_set(c).contains(e) by {
        if arc_set(r).contains(e) {
            let j = choose|j: int| 0 <= j < r.len() && #[trigger] arc(r, j) == e;
            assert(arc(c, shift(len, p, j)) == e);
        }
        if arc_set(c).contains(e) {
            let i = choose|i: int| 0 <= i < c.len() && #[trigger] arc(c, i) == e;
            let j = if i >= p {
                i - p
            } else {
                i - p + len
            };
            assert(shift(len, p, j) == i);
            assert(arc(r, j) == e);
        }
    }
    assert(arc_set(r) =~= arc_set(c));
}

/// Rotation keeps a cycle elementary, and commutes with taking weights.
pub proof fn lemma_rotated_cycle(w: Seq<usize>, edges: Seq<(usize, usize)>, loc: Seq<usize>, p: int)
    requires
        is_simple_cycle(edges, loc),
        0 <= p < loc.len(),
        forall|i: int| 0 <= i < loc.len() ==> #[trigger] loc[i] < w.len(),
    ensures
        is_simple_cycle(edges, rotated(loc, p)),
        forall|i: int| 0 <= i < loc.len() ==> #[trigger] rotated(loc, p)[i] < w.len(),
        lift(w, rotated(loc, p)) == rotated(lift(w, loc), p),
{
    lemma_rotated(loc, p);
    let r = rotated(loc, p);
    let len = loc.len() as int;
    assert forall|j: int| 0 <= j < len implies #[trigger] cycle_step(edges, r, j) by {
        assert(arc(r, j) == arc(loc, shift(len, p, j)));
        assert(cycle_step(edges, loc, shift(len, p, j)));
    }
    assert forall|i: int, j: int| 0 <= i < len && 0 <= j < len && i != j implies r[i] != r[j] by {
        assert(r[i] == loc[shift(len, p, i)]);
        assert(r[j] == loc[shift(len, p, j)]);
    }
    assert forall|i: int| 0 <= i < len implies #[trigger] r[i] < w.len() by {
        assert(r[i] == loc[shift(len, p, i)]);
    }
    let lw = lift(w, loc);
    lemma_rotated(lw, p);
    assert(lift(w, r) =~= rotated(lw, p));
}

/// Rotate a cycle path to start at its first smallest node, keeping its
/// direction: a stable representative for display.
pub fn canonical_rotation(path: Vec<usize>) -> (res: Vec<usize>)
    ensures
        path@.len() == 0 ==> res@ == path@,
        path@.len() > 0 ==> res@ == canonical(path@),
        path@.len() > 0 ==> is_first_min(res@, 0),
        path@.len() > 0 ==> is_first_min(path@, min_pos(path@)),
{
    if path.len() == 0 {
        return path;
    }
    let mut best: usize = 0;
    let mut i: usize = 1;
    while i < path.len()
        invariant
            1 <= i <= path@.len(),
            best < i,
            forall|j: int| 0 <= j < i ==> path@[best as int] <= #[trigger] path@[j],
            forall|j: int| 0 <= j < best ==> path@[best as int] < #[trigger] path@[j],
        decreases path.len() - i,
    {
        if path[i] < path[best] {
            best = i;
        }
        i = i + 1;
    }
    proof {
        assert(is_first_min(path@, best as int));
        lemma_min_pos(path@, best as int);
        lemma_rotated(path@, best as int);
    }
    let mut res: Vec<usize> = Vec::new();
    let mut j: usize = best;
    while j < path.len()
        invariant
            best <= j <= path@.len(),
            res@ == path@.subrange(best as int, j as int),
        decreases path.len() - j,
    {
        res.push(path[j]);
        j = j + 1;
        assert(res@ =~= path@.subrange(best as int, j as int));
    }
    let mut k: usize = 0;
    while k < best
        invariant
            k <= best < path@.len(),
            res@ == path@.skip(best as int) + path@.take(k as int),
        decreases best - k,
    {
        res.push(path[k]);
        k = k + 1;
        assert(res@ =~= path@.skip(best as int) + path@.take(k as int));
    }
    proof {
        let r = rotated(path@, best as int);
        assert(res@ =~= r);
        assert forall|j2: int| 0 <= j2 < r.len() implies r[0] <= #[trigger] r[j2] by {
            assert(r[0] == path@[shift(path@.len() as int, best as int, 0)]);
            assert(r[j2] == path@[shift(path@.len() as int, best as int, j2)]);
        }
    }
    res
}

/// Whether `(x, y)` is an arc of the cycle `c`.
fn has_arc(c: &Vec<usize>, x: usize, y: usize) -> (res: bool)
    ensures
        res == arc_set(c@).contains((x, y)),
{
    let mut j: usize = 0;
    while j < c.len()
        invariant
            j <= c@.len(),
            forall|i: int| 0 <= i < j ==> #[trigger] arc(c@, i) != (x, y),
        decreases c.len() - j,
    {
        let nj = if j + 1 < c.len() {
            j + 1
        } else {
            0
        };
        if c[j] == x && c[nj] == y {
            assert(arc(c@, j as int) == (x, y));
            return true;
        }
        j = j + 1;
    }
    false
}

/// Whether every arc of `a` is an arc of `b`.
fn arcs_within(a: &Vec<usize>, b: &Vec<usize>) -> (res: bool)
    ensures
        res == arc_set(a@).subset_of(arc_set(b@)),
{
    let mut j: usize = 0;
    while j < a.len()
        invariant
            j <= a@.len(),
            forall|i: int| 0 <= i < j ==> arc_set(b@).contains(#[trigger] arc(a@, i)),
        decreases a.len() - j,
    {
        let nj = if j + 1 < a.len() {
            j + 1
        } else {
            0
        };
        if !has_arc(b, a[j], a[nj]) {
            assert(arc_set(a@).contains(arc(a@, j as int)));
            return false;
        }
        j = j + 1;
    }
    assert forall|e: (usize, usize)| arc_set(a@).contains(e) implies arc_set(b@).contains(e) by {
        let i = choose|i: int| 0 <= i < a@.len() && #[trigger] arc(a@, i) == e;
    }
    true
}

/// Whether two cycles run through the same arcs.
fn same_arcs(a: &Vec<usize>, b: &Vec<usize>) -> (res: bool)
    ensures
        res == (arc_set(a@) == arc_set(b@)),
{
    let ab = arcs_within(a, b);
    let ba = arcs_within(b, a);
    if ab && ba {
        assert(arc_set(a@) =~= arc_set(b@));
        true
    } else {
        proof {
            if arc_set(a@) == arc_set(b@) {
                assert(arc_set(a@).subset_of(arc_set(b@)));
                assert(arc_set(b@).subset_of(arc_set(a@)));
            }
        }
        false
    }
}

/// The indices `k` of the cycles whose first `j` arcs are `e`, one for
/// each such arc.
pub open spec fn hits_in(c: Seq<usize>, e: (usize, usize), k: usize, j: int) -> Seq<usize>
    decreases j,
{
    if j <= 0 || j > c.len() {
        Seq::empty()
    } else {
        hits_in(c, e, k, j - 1) + (if arc(c, j - 1) == e {
            seq![k]
        } else {
            Seq::<usize>::empty()
        })
    }
}

/// The indices of the first `i` cycles that run through `e`, ascending, an
/// index once for each time its cycle runs through `e`.
pub open spec fn arc_hits(cycles: Seq<Seq<usize>>, e: (usize, usize), i: int) -> Seq<usize>
    decreases i,
{
    if i <= 0 || i > cycles.len() {
        Seq::empty()
    } else {
        arc_hits(cycles, e, i - 1) + hits_in(cycles[i - 1], e, (i - 1) as usize, cycles[i - 1].len() as int)
    }
}

/// Whether some of the cycles runs through `(a, b)`.
pub open spec fn covered(cycles: Seq<Seq<usize>>, a: usize, b: usize) -> bool {
    exists|i: int| 0 <= i < cycles.len() && #[trigger] arc_set(cycles[i]).contains((a, b))
}

/// The hits of one cycle are there exactly when it runs through `e`.
pub proof fn lemma_hits_in(c: Seq<usize>, e: (usize, usize), k: usize, j: int)
    requires
        0 <= j <= c.len(),
    ensures
        hits_in(c, e, k, j).len() > 0 <==> exists|i: int| 0 <= i < j && #[trigger] arc(c, i) == e,
    decreases j,
{
    if j > 0 {
        lemma_hits_in(c, e, k, j - 1);
        if exists|i: int| 0 <= i < j && #[trigger] arc(c, i) == e {
            let i = choose|i: int| 0 <= i < j && #[trigger] arc(c, i) == e;
            if i < j - 1 {
                assert(hits_in(c, e, k, j - 1).len() > 0);
            }
        }
    }
}

/// The hits of the first `i` cycles are there exactly when one of them runs
/// through `e`.
pub proof fn lemma_arc_hits(cycles: Seq<Seq<usize>>, e: (usize, usize), i: int)
    requires
        0 <= i <= cycles.len(),
    ensures
        arc_hits(cycles, e, i).len() > 0 <==> exists|k: int| 0 <= k < i && #[trigger] arc_set(cycles[k]).contains(e),
    decreases i,
{
    if i > 0 {
        lemma_arc_hits(cycles, e, i - 1);
        let c = cycles[i - 1];
        lemma_hits_in(c, e, (i - 1) as usize, c.len() as int);
        if arc_set(c).contains(e) {
            let j = choose|j: int| 0 <= j < c.len() && #[trigger] arc(c, j) == e;
        }
        if exists|k: int| 0 <= k < i && #[trigger] arc_set(cycles[k]).contains(e) {
            let k = choose|k: int| 0 <= k < i && #[trigger] arc_set(cycles[k]).contains(e);
            if k < i - 1 {
                assert(arc_hits(cycles, e, i - 1).len() > 0);
            } else {
                let j = choose|j: int| 0 <= j < c.len() && #[trigger] arc(c, j) == e;
            }
        }
    }
}

/// For every arc the cycles run through: the ascending indices of the
/// cycles on it.
#[derive(Debug, Clone, PartialEq)]
pub struct EdgeCycles {
    pub entries: Vec<((usize, usize), Vec<usize>)>,
}

/// Whether `ec` indexes `cycles`: one entry per arc some cycle runs
/// through, holding the arc's hits.
pub open spec fn indexes(ec: EdgeCycles, cycles: Seq<Seq<usize>>) -> bool {
    &&& forall|i: int, j: int|
        0 <= i < ec.entries@.len() && 0 <= j < ec.entries@.len() && i != j ==> (#[trigger] ec.entries@[i]).0
            != (#[trigger] ec.entries@[j]).0
    &&& forall|i: int|
        0 <= i < ec.entries@.len() ==> (#[trigger] ec.entries@[i]).1@ == arc_hits(
            cycles,
            ec.entries@[i].0,
            cycles.len() as int,
        )
    &&& forall|e: (usize, usize)|
        ec.has(e) <==> #[trigger] arc_hits(cycles, e, cycles.len() as int).len() > 0
}

impl EdgeCycles {
    /// Whether `e` has an entry.
    pub open spec fn has(&self, e: (usize, usize)) -> bool {
        exists|i: int| 0 <= i < self.entries@.len() && #[trigger] self.entries@[i].0 == e
    }

    /// Where the entry for `e` stands.
    fn position(&self, e: (usize, usize)) -> (res: Option<usize>)
        ensures
            match res {
                Some(i) => i < self.entries@.len() && self.entries@[i as int].0 == e,
                None => !self.has(e),
            },
    {
        let mut i: usize = 0;
        while i < self.entries.len()
            invariant
                i <= self.entries@.len(),
                forall|k: int| 0 <= k < i ==> #[trigger] self.entries@[k].0 != e,
            decreases self.entries.len() - i,
        {
            if self.entries[i].0.0 == e.0 && self.entries[i].0.1 == e.1 {
                return Some(i);
            }
            i = i + 1;
        }
        None
    }

    /// The cycles on arc `e`, where it has an entry.
    pub fn get(&self, e: (usize, usize)) -> (res: Option<&Vec<usize>>)
        ensures
            match res {
                Some(v) => exists|i: int|
                    0 <= i < self.entries@.len() && self.entries@[i].0 == e && #[trigger] self.entries@[i].1
                        == *v,
                None => !self.has(e),
            },
    {
        match self.position(e) {
            Some(i) => Some(&self.entries[i].1),
            None => None,
        }
    }

    /// Whether arc `e` has an entry.
    pub fn contains_key(&self, e: (usize, usize)) -> (res: bool)
        ensures
            res == self.has(e),
    {
        self.position(e).is_some()
    }

    /// The number of arcs with an entry.
    pub fn len(&self) -> (res: usize)
        ensures
            res == self.entries@.len(),
    {
        self.entries.len()
    }

    /// Whether no arc has an entry.
    pub fn is_empty(&self) -> (res: bool)
        ensures
            res == (self.entries@.len() == 0),
    {
        self.entries.len() == 0
    }
}

/// Index every arc of every cycle by the cycles it lies on.
#[verifier::spinoff_prover]
#[verifier::rlimit(40)]
pub fn index_arcs(cycles: &Vec<Vec<usize>>) -> (res: EdgeCycles)
    ensures
        indexes(res, cycles@.map_values(|c: Vec<usize>| c@)),
{
    let ghost cs = cycles@.map_values(|c: Vec<usize>| c@);
    let mut ec = EdgeCycles { entries: Vec::new() };
    let mut k: usize = 0;
    while k < cycles.len()
        invariant
            k <= cycles@.len(),
            cs == cycles@.map_values(|c: Vec<usize>| c@),
            forall|i: int, j: int|
                0 <= i < ec.entries@.len() && 0 <= j < ec.entries@.len() && i != j ==> (#[trigger] ec.entries@[i]).0
                    != (#[trigger] ec.entries@[j]).0,
            forall|i: int|
                0 <= i < ec.entries@.len() ==> (#[trigger] ec.entries@[i]).1@ == arc_hits(cs, ec.entries@[i].0, k as int),
            forall|e: (usize, usize)| ec.has(e) <==> #[trigger] arc_hits(cs, e, k as int).len() > 0,
        decreases cycles.len() - k,
    {
        let c = &cycles[k];
        assert(cs[k as int] == c@);
        let mut j: usize = 0;
        while j < c.len()
            invariant
                k < cycles@.len(),
                j <= c@.len(),
                cs[k as int] == c@,
                forall|i: int, i2: int|
                    0 <= i < ec.entries@.len() && 0 <= i2 < ec.entries@.len() && i != i2 ==> (
                    #[trigger] ec.entries@[i]).0 != (#[trigger] ec.entries@[i2]).0,
                forall|i: int|
                    0 <= i < ec.entries@.len() ==> (#[trigger] ec.entries@[i]).1@ == arc_hits(
                        cs,
                        ec.entries@[i].0,
                        k as int,
                    ) + hits_in(c@, ec.entries@[i].0, k, j as int),
                forall|e: (usize, usize)|
                    ec.has(e) <==> #[trigger] (arc_hits(cs, e, k as int) + hits_in(c@, e, k, j as int)).len() > 0,
            decreases c.len() - j,
        {
            let nj = if j + 1 < c.len() {
                j + 1
            } else {
                0
            };
            let e = (c[j], c[nj]);
            assert(arc(c@, j as int) == e);
            let ghost old_entries = ec.entries@;
            let ghost old_ec = ec;
            match ec.position(e) {
                Some(i) => {
                    let (key, mut list) = ec.entries.remove(i);
                    list.push(k);
                    ec.entries.insert(i, (key, list));
                    proof {
                        assert(ec.entries@ =~= old_entries.update(i as int, (key, list)));
                        assert forall|f: (usize, usize)| ec.has(f) <==> old_ec.has(f) by {
                            if ec.has(f) {
                                let q = choose|q: int| 0 <= q < ec.entries@.len() && #[trigger] ec.entries@[q].0 == f;
                                assert(old_entries[q].0 == f);
                            }
                            if old_ec.has(f) {
                                let q = choose|q: int| 0 <= q < old_entries.len() && #[trigger] old_entries[q].0 == f;
                                assert(ec.entries@[q].0 == f);
                            }
                        }
                    }
                },
                None => {
                    let mut list: Vec<usize> = Vec::new();
                    list.push(k);
                    ec.entries.push((e, list));
                    proof {
                        assert(!old_ec.has(e));
                        assert forall|f: (usize, usize)| ec.has(f) <==> (old_ec.has(f) || f == e) by {
                            if ec.has(f) {
                                let q = choose|q: int| 0 <= q < ec.entries@.len() && #[trigger] ec.entries@[q].0 == f;
                                if q < old_entries.len() {
                                    assert(old_entries[q].0 == f);
                                }
                            }
                            if old_ec.has(f) {
                                let q = choose|q: int| 0 <= q < old_entries.len() && #[trigger] old_entries[q].0 == f;
                                assert(ec.entries@[q].0 == f);
                            }
                            if f == e {
                                assert(ec.entries@[old_entries.len() as int].0 == f);
                            }
                        }
                    }
                },
            }
            proof {
                assert forall|f: (usize, usize)|
                    #![trigger hits_in(c@, f, k, j + 1)]
                    hits_in(c@, f, k, j + 1) == hits_in(c@, f, k, j as int) + (if f == e {
                        seq![k]
                    } else {
                        Seq::<usize>::empty()
                    }) by {}
                assert forall|f: (usize, usize)|
                    ec.has(f) <==> #[trigger] (arc_hits(cs, f, k as int) + hits_in(c@, f, k, j + 1)).len() > 0 by {
                    assert(hits_in(c@, f, k, j + 1) == hits_in(c@, f, k, j as int) + (if f == e {
                        seq![k]
                    } else {
                        Seq::<usize>::empty()
                    }));
                }
                assert forall|i: int|
                    0 <= i < ec.entries@.len() implies (#[trigger] ec.entries@[i]).1@ == arc_hits(
                        cs,
                        ec.entries@[i].0,
                        k as int,
                    ) + hits_in(c@, ec.entries@[i].0, k, j + 1) by {
                    let f = ec.entries@[i].0;
                    assert(hits_in(c@, f, k, j + 1) == hits_in(c@, f, k, j as int) + (if f == e {
                        seq![k]
                    } else {
                        Seq::<usize>::empty()
                    }));
                    if i < old_entries.len() {
                        assert(old_entries[i].0 == f);
                        assert(old_entries[i].1@ == arc_hits(cs, f, k as int) + hits_in(c@, f, k, j as int));
                        if f == e {
                            assert((arc_hits(cs, f, k as int) + hits_in(c@, f, k, j as int)).push(k)
                                =~= arc_hits(cs, f, k as int) + hits_in(c@, f, k, j + 1));
                        } else {
                            assert(arc_hits(cs, f, k as int) + hits_in(c@, f, k, j as int) =~= arc_hits(
                                cs,
                                f,
                                k as int,
                            ) + hits_in(c@, f, k, j + 1));
                        }
                    } else {
                        assert(f == e);
                        assert(!old_ec.has(e));
                        assert((arc_hits(cs, e, k as int) + hits_in(c@, e, k, j as int)).len() == 0);
                        assert(arc_hits(cs, e, k as int) + hits_in(c@, e, k, j + 1) =~= seq![k]);
                    }
                }
                assert forall|i: int, i2: int|
                    0 <= i < ec.entries@.len() && 0 <= i2 < ec.entries@.len() && i != i2 implies (
                    #[trigger] ec.entries@[i]).0 != (#[trigger] ec.entries@[i2]).0 by {
                    if i < old_entries.len() && i2 < old_entries.len() {
                        assert(old_entries[i].0 == ec.entries@[i].0);
                        assert(old_entries[i2].0 == ec.entries@[i2].0);
                    } else if i < old_entries.len() {
                        assert(old_entries[i].0 == ec.entries@[i].0);
                        assert(old_ec.has(ec.entries@[i].0));
                    } else {
                        assert(old_entries[i2].0 == ec.entries@[i2].0);
                        assert(old_ec.has(ec.entries@[i2].0));
                    }
                }
            }
            j = j + 1;
        }
        proof {
            assert forall|f: (usize, usize)|
                #![trigger arc_hits(cs, f, k + 1)]
                arc_hits(cs, f, k + 1) == arc_hits(cs, f, k as int) + hits_in(c@, f, k, c@.len() as int) by {}
        }
        k = k + 1;
    }
    ec
}

/// The contents of a sequence of vectors.
pub open spec fn views(v: Seq<Vec<usize>>) -> Seq<Seq<usize>> {
    v.map_values(|c: Vec<usize>| c@)
}

/// Whether each of `cycles` is the weights of the elementary cycle of the
/// graph standing at the same place in `locs`.
pub open spec fn lifts_cycles(
    w: Seq<usize>,
    edges: Seq<(usize, usize)>,
    cycles: Seq<Seq<usize>>,
    locs: Seq<Seq<usize>>,
) -> bool {
    &&& cycles.len() == locs.len()
    &&& forall|i: int|
        0 <= i < locs.len() ==> #[trigger] is_simple_cycle(edges, locs[i]) && (forall|j: int|
            0 <= j < locs[i].len() ==> #[trigger] locs[i][j] < w.len()) && cycles[i] == lift(w, locs[i])
}

/// Whether `x -> y` is an edge between two different nodes of the `c`-th
/// component.
pub open spec fn cyclic_in(comps: Seq<Seq<usize>>, edges: Seq<(usize, usize)>, c: int, x: usize, y: usize) -> bool {
    in_comp(comps, c, x) && in_comp(comps, c, y) && has_edge(edges, x, y) && x != y
}

/// The weights of the nodes of the first `i` components that have more
/// than one node, component by component.
pub open spec fn nontrivial(w: Seq<usize>, comps: Seq<Seq<usize>>, i: int) -> Seq<Seq<usize>>
    decreases i,
{
    if i <= 0 || i > comps.len() {
        Seq::empty()
    } else if comps[i - 1].len() > 1 {
        nontrivial(w, comps, i - 1).push(lift(w, comps[i - 1]))
    } else {
        nontrivial(w, comps, i - 1)
    }
}

/// The marks of the nodes below `n` that `c` holds.
pub open spec fn member_marks(c: Seq<usize>, n: nat) -> Seq<bool> {
    Seq::new(n, |x: int| c.contains(x as usize))
}

/// The weights of the tree cycles of the in-edges `u -> v` with `u` below
/// `j`, `u` marked `inside` and other than `v`, in ascending order of `u`.
pub open spec fn node_cycles(w: Seq<usize>, edges: Seq<(usize, usize)>, inside: Seq<bool>, v: usize, j: int) -> Seq<Seq<usize>>
    decreases j,
{
    if j <= 0 {
        Seq::empty()
    } else if inside[j - 1] && (j - 1) as usize != v && has_edge(edges, (j - 1) as usize, v) {
        node_cycles(w, edges, inside, v, j - 1).push(lift(w, tree_cycle(edges, inside, v, (j - 1) as usize)))
    } else {
        node_cycles(w, edges, inside, v, j - 1)
    }
}

/// The cycles of the nodes `v` below `j` marked `inside`, in ascending
/// order of `v`: for each, those of [`node_cycles`].
pub open spec fn comp_cycles(w: Seq<usize>, edges: Seq<(usize, usize)>, inside: Seq<bool>, j: int) -> Seq<Seq<usize>>
    decreases j,
{
    if j <= 0 {
        Seq::empty()
    } else if inside[j - 1] {
        comp_cycles(w, edges, inside, j - 1) + node_cycles(w, edges, inside, (j - 1) as usize, inside.len() as int)
    } else {
        comp_cycles(w, edges, inside, j - 1)
    }
}

/// The cycles of the first `i` components that have more than one node,
/// component by component: for each, those of [`comp_cycles`] among its
/// nodes. These are the cycles before deduplication.
pub open spec fn raw_cycles(w: Seq<usize>, edges: Seq<(usize, usize)>, comps: Seq<Seq<usize>>, i: int) -> Seq<Seq<usize>>
    decreases i,
{
    if i <= 0 || i > comps.len() {
        Seq::empty()
    } else if comps[i - 1].len() > 1 {
        raw_cycles(w, edges, comps, i - 1) + comp_cycles(w, edges, member_marks(comps[i - 1], w.len()), w.len() as int)
    } else {
        raw_cycles(w, edges, comps, i - 1)
    }
}

/// The marks of the nodes below `n` that `items` holds.
fn mark_members(items: &Vec<usize>, n: usize) -> (res: Vec<bool>)
    requires
        forall|k: int| 0 <= k < items@.len() ==> #[trigger] items@[k] < n,
    ensures
        res@ == member_marks(items@, n as nat),
{
    let mut res: Vec<bool> = Vec::new();
    let mut i: usize = 0;
    while i < n
        invariant
            i <= n,
            res@.len() == i,
            forall|k: int| 0 <= k < i ==> !#[trigger] res@[k],
        decreases n - i,
    {
        res.push(false);
        i = i + 1;
    }
    let mut i: usize = 0;
    while i < items.len()
        invariant
            i <= items@.len(),
            res@.len() == n,
            forall|k: int| 0 <= k < items@.len() ==> #[trigger] items@[k] < n,
            forall|x: int| 0 <= x < n ==> (#[trigger] res@[x] <==> items@.take(i as int).contains(x as usize)),
        decreases items.len() - i,
    {
        res.set(items[i], true);
        proof {
            let prev = items@.take(i as int);
            let next = items@.take(i + 1);
            assert(next =~= prev.push(items@[i as int]));
            assert forall|x: int| 0 <= x < n implies (#[trigger] res@[x] <==> next.contains(x as usize)) by {
                if next.contains(x as usize) && x != items@[i as int] {
                    let q = choose|q: int| 0 <= q < next.len() && next[q] == x as usize;
                    assert(prev[q] == x as usize);
                }
                if prev.contains(x as usize) {
                    let q = choose|q: int| 0 <= q < prev.len() && prev[q] == x as usize;
                    assert(next[q] == x as usize);
                }
                if x == items@[i as int] {
                    assert(next[i as int] == x as usize);
                }
            }
        }
        i = i + 1;
    }
    assert(items@.take(items@.len() as int) =~= items@);
    assert(res@ =~= member_marks(items@, n as nat));
    res
}

/// Adding the weights of an elementary cycle keeps the cycles lifted.
pub proof fn lemma_lifts_push(
    w: Seq<usize>,
    edges: Seq<(usize, usize)>,
    cycles: Seq<Seq<usize>>,
    locs: Seq<Seq<usize>>,
    c: Seq<usize>,
    loc: Seq<usize>,
)
    requires
        lifts_cycles(w, edges, cycles, locs),
        is_simple_cycle(edges, loc),
        forall|j: int| 0 <= j < loc.len() ==> #[trigger] loc[j] < w.len(),
        c == lift(w, loc),
    ensures
        lifts_cycles(w, edges, cycles.push(c), locs.push(loc)),
{
    let cs = cycles.push(c);
    let ls = locs.push(loc);
    assert forall|i: int|
        0 <= i < ls.len() implies #[trigger] is_simple_cycle(edges, ls[i]) && (forall|j: int|
            0 <= j < ls[i].len() ==> #[trigger] ls[i][j] < w.len()) && cs[i] == lift(w, ls[i]) by {
        if i < locs.len() {
            assert(ls[i] == locs[i]);
            assert(cs[i] == cycles[i]);
            assert(is_simple_cycle(edges, locs[i]));
        } else {
            assert(ls[i] == loc);
            assert(cs[i] == c);
        }
    }
}

/// What was covered stays covered when a cycle is added.
pub proof fn lemma_covered_push(cycles: Seq<Seq<usize>>, c: Seq<usize>)
    ensures
        forall|a: usize, b: usize| covered(cycles, a, b) ==> #[trigger] covered(cycles.push(c), a, b),
{
    assert forall|a: usize, b: usize| covered(cycles, a, b) implies #[trigger] covered(cycles.push(c), a, b) by {
        let i = choose|i: int| 0 <= i < cycles.len() && #[trigger] arc_set(cycles[i]).contains((a, b));
        assert(cycles.push(c)[i] == cycles[i]);
    }
}

/// `l` is the fewest edges a walk from `a` to `b` takes.
pub open spec fn shortest_walk(edges: Seq<(usize, usize)>, a: usize, b: usize, l: nat) -> bool {
    &&& exists|p: Seq<usize>| #[trigger] is_walk(edges, p) && p[0] == a && p.last() == b && p.len() == l + 1
    &&& forall|p: Seq<usize>| #[trigger] is_walk(edges, p) && p[0] == a && p.last() == b ==> p.len() >= l + 1
}

/// Some cycle of the list runs through the arc `w[x] -> w[y]` and has one
/// node more than the fewest edges a walk from `y` back to `x` takes.
pub open spec fn short_covered(cycles: Seq<Seq<usize>>, edges: Seq<(usize, usize)>, w: Seq<usize>, x: usize, y: usize) -> bool {
    exists|i: int|
        0 <= i < cycles.len() && #[trigger] arc_set(cycles[i]).contains((w[x as int], w[y as int])) && cycles[i].len()
            >= 1 && shortest_walk(edges, y, x, (cycles[i].len() - 1) as nat)
}

/// The arc `w[x] -> w[y]` lies on a cycle of the list, and on one of the
/// fewest nodes.
pub open spec fn both_covered(cycles: Seq<Seq<usize>>, edges: Seq<(usize, usize)>, w: Seq<usize>, x: usize, y: usize) -> bool {
    covered(cycles, w[x as int], w[y as int]) && short_covered(cycles, edges, w, x, y)
}

/// Adding a cycle keeps every arc covered as it was.
pub proof fn lemma_both_push(cycles: Seq<Seq<usize>>, edges: Seq<(usize, usize)>, w: Seq<usize>, c: Seq<usize>)
    ensures
        forall|x: usize, y: usize| both_covered(cycles, edges, w, x, y) ==> #[trigger] both_covered(cycles.push(c), edges, w, x, y),
{
    lemma_covered_push(cycles, c);
    assert forall|x: usize, y: usize| both_covered(cycles, edges, w, x, y) implies #[trigger] both_covered(cycles.push(c), edges, w, x, y) by {
        let i = choose|i: int|
            0 <= i < cycles.len() && #[trigger] arc_set(cycles[i]).contains((w[x as int], w[y as int])) && cycles[i].len()
                >= 1 && shortest_walk(edges, y, x, (cycles[i].len() - 1) as nat);
        assert(cycles.push(c)[i] == cycles[i]);
    }
}

/// Every node of a walk whose ends lie in a component, and whose last node
/// has an edge back to its first, lies in that component; so a search tree
/// over the component reaches the last node in no more steps than the walk.
pub proof fn lemma_walk_stays(
    cs: Seq<Seq<usize>>,
    n: nat,
    edges: Seq<(usize, usize)>,
    c: int,
    p: Seq<usize>,
)
    requires
        are_components(cs, n, edges),
        edges_within(edges, n),
        is_walk(edges, p),
        p[0] < n,
        in_comp(cs, c, p[0]),
        has_edge(edges, p.last(), p[0]),
    ensures
        forall|i: int| 0 <= i < p.len() ==> #[trigger] p[i] < n && in_comp(cs, c, p[i]),
{
    lemma_edge_reaches(edges, p.last(), p[0]);
    assert forall|i: int| 0 <= i < p.len() implies #[trigger] p[i] < n && in_comp(cs, c, p[i]) by {
        if i > 0 {
            assert(step(edges, p, i - 1));
            let k = choose|k: int| 0 <= k < edges.len() && edges[k] == (p[i - 1], p[i]);
            assert(edges[k].1 < n);
        }
        crate::digraph::lemma_walk_split(edges, p, i);
        crate::digraph::lemma_reaches_trans(edges, p[i], p.last(), p[0]);
    }
}

/// No two nodes weigh the same.
pub open spec fn distinct_weights(w: Seq<usize>) -> bool {
    forall|i: int, j: int| 0 <= i < w.len() && 0 <= j < w.len() && i != j ==> w[i] != w[j]
}

/// A cycle without repeated nodes runs through as many arcs as it has nodes.
pub proof fn lemma_arc_set_len(c: Seq<usize>)
    requires
        c.no_duplicates(),
    ensures
        arc_set(c).finite(),
        arc_set(c).len() == c.len(),
{
    let s = Seq::new(c.len(), |j: int| arc(c, j));
    assert(s.no_duplicates()) by {
        assert forall|i: int, j: int| 0 <= i < s.len() && 0 <= j < s.len() && i != j implies s[i] != s[j] by {
            assert(s[i].0 == c[i] && s[j].0 == c[j]);
        }
    }
    assert(s.to_set() =~= arc_set(c)) by {
        assert forall|e: (usize, usize)| s.to_set().contains(e) <==> arc_set(c).contains(e) by {
            if arc_set(c).contains(e) {
                let j = choose|j: int| 0 <= j < c.len() && #[trigger] arc(c, j) == e;
                assert(s[j] == e);
            }
            if s.to_set().contains(e) {
                let j = choose|j: int| 0 <= j < s.len() && s[j] == e;
                assert(arc(c, j) == e);
            }
        }
    }
    s.unique_seq_to_set();
    vstd::seq_lib::seq_to_set_is_finite(s);
}

/// The weights of a cycle without repeated nodes repeat none, where no two
/// nodes weigh the same.
pub proof fn lemma_lift_no_dup(w: Seq<usize>, loc: Seq<usize>)
    requires
        distinct_weights(w),
        loc.no_duplicates(),
        forall|i: int| 0 <= i < loc.len() ==> #[trigger] loc[i] < w.len(),
    ensures
        lift(w, loc).no_duplicates(),
{
    let l = lift(w, loc);
    assert forall|i: int, j: int| 0 <= i < l.len() && 0 <= j < l.len() && i != j implies l[i] != l[j] by {
        assert(loc[i] != loc[j]);
        assert(l[i] == w[loc[i] as int] && l[j] == w[loc[j] as int]);
    }
}

/// A cycle of the graph is its weights without repeats, where no two nodes
/// weigh the same.
pub proof fn lemma_graph_cycle_no_dup(w: Seq<usize>, edges: Seq<(usize, usize)>, c: Seq<usize>)
    requires
        distinct_weights(w),
        is_graph_cycle(w, edges, c),
    ensures
        c.no_duplicates(),
        c.len() >= 2,
{
    let loc = choose|loc: Seq<usize>|
        #[trigger] is_simple_cycle(edges, loc) && (forall|i: int| 0 <= i < loc.len() ==> #[trigger] loc[i] < w.len())
            && c == lift(w, loc);
    lemma_lift_no_dup(w, loc);
}

/// Keeping one cycle per set of arcs keeps each arc on a cycle of the fewest
/// nodes, where no two nodes weigh the same.
pub proof fn lemma_short_kept(
    w: Seq<usize>,
    edges: Seq<(usize, usize)>,
    rv: Seq<Seq<usize>>,
    locs: Seq<Seq<usize>>,
    kv: Seq<Seq<usize>>,
    x: usize,
    y: usize,
)
    requires
        distinct_weights(w),
        lifts_cycles(w, edges, rv, locs),
        short_covered(rv, edges, w, x, y),
        forall|k: int| 0 <= k < kv.len() ==> #[trigger] is_graph_cycle(w, edges, kv[k]),
        forall|r: int| 0 <= r < rv.len() ==> exists|k: int| 0 <= k < kv.len() && arc_set(#[trigger] kv[k]) == arc_set(#[trigger] rv[r]),
    ensures
        short_covered(kv, edges, w, x, y),
{
    let e = (w[x as int], w[y as int]);
    let r = choose|r: int|
        0 <= r < rv.len() && #[trigger] arc_set(rv[r]).contains(e) && rv[r].len() >= 1 && shortest_walk(
            edges,
            y,
            x,
            (rv[r].len() - 1) as nat,
        );
    assert(is_simple_cycle(edges, locs[r]));
    lemma_lift_no_dup(w, locs[r]);
    let k = choose|k: int| 0 <= k < kv.len() && arc_set(#[trigger] kv[k]) == arc_set(#[trigger] rv[r]);
    lemma_graph_cycle_no_dup(w, edges, kv[k]);
    lemma_arc_set_len(kv[k]);
    lemma_arc_set_len(rv[r]);
    assert(arc_set(kv[k]).contains(e));
}

/// The weights of the nodes of `p`.
fn weights_of(g: &DiGraph<NodeIndex, ()>, p: &Vec<usize>) -> (res: Vec<usize>)
    requires
        forall|i: int| 0 <= i < p@.len() ==> #[trigger] p@[i] < node_weights(*g).len(),
    ensures
        res@ == lift(node_weights(*g), p@),
{
    let mut res: Vec<usize> = Vec::new();
    let mut i: usize = 0;
    while i < p.len()
        invariant
            i <= p@.len(),
            forall|k: int| 0 <= k < p@.len() ==> #[trigger] p@[k] < node_weights(*g).len(),
            res@ == lift(node_weights(*g), p@.take(i as int)),
        decreases p.len() - i,
    {
        res.push(weight(g, p[i]));
        i = i + 1;
        assert(res@ =~= lift(node_weights(*g), p@.take(i as int)));
    }
    assert(p@.take(p@.len() as int) =~= p@);
    res
}

/// Every in-edge `u -> v` of a component of more than one node, with `u`
/// another node of it, gets its shortest cycle: `v` to `u` along the search
/// tree from `v`, closed by the edge. Components come in the order `tarjan_scc`
/// gives, the nodes of each and the sources of each node in ascending order. Also
/// gives the weights of the nodes of each such component.
pub(crate) fn scan_components(g: &DiGraph<NodeIndex, ()>) -> (res: (Vec<Vec<usize>>, Vec<Vec<usize>>, Ghost<Seq<Seq<usize>>>))
    ensures
        lifts_cycles(node_weights(*g), edge_list(*g), views(res.0@), res.2@),
        forall|x: usize, y: usize|
            #![trigger has_edge(edge_list(*g), x, y), reaches(edge_list(*g), y, x)]
            has_edge(edge_list(*g), x, y) && x != y && reaches(edge_list(*g), y, x) ==> covered(
                views(res.0@),
                node_weights(*g)[x as int],
                node_weights(*g)[y as int],
            ),
        forall|x: usize, y: usize|
            #![trigger has_edge(edge_list(*g), x, y), reaches(edge_list(*g), y, x)]
            has_edge(edge_list(*g), x, y) && x != y && reaches(edge_list(*g), y, x) ==> short_covered(
                views(res.0@),
                edge_list(*g),
                node_weights(*g),
                x,
                y,
            ),
        exists|cs: Seq<Seq<usize>>|
            #[trigger] are_components(cs, node_weights(*g).len(), edge_list(*g)) && sinks_first(cs, edge_list(*g))
                && views(res.1@) == nontrivial(node_weights(*g), cs, cs.len() as int) && views(res.0@) == raw_cycles(
                node_weights(*g),
                edge_list(*g),
                cs,
                cs.len() as int,
            ),
{
    let ghost w = node_weights(*g);
    let ghost edges = edge_list(*g);
    let n = node_count(g);
    let comps = strongly_connected(g);
    let ghost cs = comps@.map_values(|c: Vec<usize>| c@);
    let mut raw: Vec<Vec<usize>> = Vec::new();
    let ghost mut locs: Seq<Seq<usize>> = Seq::empty();
    let mut groups: Vec<Vec<usize>> = Vec::new();
    assert(views(raw@) =~= Seq::<Seq<usize>>::empty());
    assert(views(raw@) =~= raw_cycles(w, edges, cs, 0));
    assert(views(groups@) =~= nontrivial(w, cs, 0));
    let mut ci: usize = 0;
    while ci < comps.len()
        invariant
            w == node_weights(*g),
            edges == edge_list(*g),
            n == w.len(),
            edges_within(edges, n as nat),
            cs == comps@.map_values(|c: Vec<usize>| c@),
            are_components(cs, n as nat, edges),
            sinks_first(cs, edges),
            ci <= comps@.len(),
            lifts_cycles(w, edges, views(raw@), locs),
            views(groups@) == nontrivial(w, cs, ci as int),
            views(raw@) == raw_cycles(w, edges, cs, ci as int),
            forall|c: int, x: usize, y: usize|
                0 <= c < ci && #[trigger] cyclic_in(cs, edges, c, x, y) ==> both_covered(views(raw@), edges, w, x, y),
        decreases comps.len() - ci,
    {
        let comp = &comps[ci];
        assert(cs[ci as int] == comp@);
        assert forall|i: int| 0 <= i < comp@.len() implies #[trigger] comp@[i] < n by {
            assert(cs[ci as int][i] < n);
        }
        if comp.len() > 1 {
            let ghost groups_before = views(groups@);
            let lifted = weights_of(g, comp);
            groups.push(lifted);
            assert(views(groups@) =~= groups_before.push(lift(w, cs[ci as int])));
            let inside = mark_members(comp, n);
            assert(inside@ =~= member_marks(cs[ci as int], n as nat));
            assert(forall|x: usize| x < n ==> (#[trigger] inside@[x as int] <==> in_comp(cs, ci as int, x)));
            let ghost base = views(raw@);
            assert(views(raw@) =~= base + comp_cycles(w, edges, inside@, 0));
            let mut v: usize = 0;
            while v < n
                invariant
                    w == node_weights(*g),
                    edges == edge_list(*g),
                    n == w.len(),
                    edges_within(edges, n as nat),
                    cs == comps@.map_values(|c: Vec<usize>| c@),
                    are_components(cs, n as nat, edges),
                    ci < comps@.len(),
                    inside@.len() == n,
                    inside@ == member_marks(cs[ci as int], n as nat),
                    forall|x: usize| x < n ==> (#[trigger] inside@[x as int] <==> in_comp(cs, ci as int, x)),
                    cs[ci as int] == comp@,
                    v <= n,
                    base == raw_cycles(w, edges, cs, ci as int),
                    views(raw@) == base + comp_cycles(w, edges, inside@, v as int),
                    lifts_cycles(w, edges, views(raw@), locs),
                    forall|c: int, x: usize, y: usize|
                        0 <= c < ci && #[trigger] cyclic_in(cs, edges, c, x, y) ==> both_covered(views(raw@), edges, w, x, y),
                    forall|x: usize, y: usize|
                        #[trigger] cyclic_in(cs, edges, ci as int, x, y) && y < v ==> both_covered(views(raw@), edges, w, x, y),
                decreases n - v,
            {
                let ghost raw_at_v = views(raw@);
                if inside[v] {
                    assert(in_comp(cs, ci as int, v));
                    let (parent, Ghost(dist)) = bfs_parents(g, n, v, &inside);
                    let into = incoming(g, v);
                    proof {
                        assert forall|q: int| 0 <= q < into@.len() implies #[trigger] into@[q] < n by {
                            let s = into@[q];
                            assert(into@.contains(s));
                            assert(into@.to_multiset().count(s) > 0);
                            assert(sources_of(edges, v).contains(s));
                            lemma_sources_of(edges, s, v);
                            let e = choose|e: int| 0 <= e < edges.len() && edges[e] == (s, v);
                            assert(edges[e].0 < n);
                        }
                        assert forall|x: usize| #[trigger] into@.contains(x) <==> has_edge(edges, x, v) by {
                            lemma_sources_of(edges, x, v);
                            if into@.contains(x) {
                                assert(into@.to_multiset().count(x) > 0);
                            }
                            if has_edge(edges, x, v) {
                                assert(sources_of(edges, v).to_multiset().count(x) > 0);
                            }
                        }
                    }
                    let src = mark_members(&into, n);
                    let ghost base_v = views(raw@);
                    assert(views(raw@) =~= base_v + node_cycles(w, edges, inside@, v, 0));
                    let mut u: usize = 0;
                    while u < n
                        invariant
                            w == node_weights(*g),
                            edges == edge_list(*g),
                            n == w.len(),
                            edges_within(edges, n as nat),
                            cs == comps@.map_values(|c: Vec<usize>| c@),
                            are_components(cs, n as nat, edges),
                            ci < comps@.len(),
                            inside@.len() == n,
                            forall|x: usize| x < n ==> (#[trigger] inside@[x as int] <==> in_comp(cs, ci as int, x)),
                            in_comp(cs, ci as int, v),
                            v < n,
                            is_bfs(edges, inside@, v, parent@, dist),
                            src@.len() == n,
                            forall|x: usize| x < n ==> (#[trigger] src@[x as int] <==> into@.contains(x)),
                            forall|x: usize| #[trigger] into@.contains(x) <==> has_edge(edges, x, v),
                            u <= n,
                            views(raw@) == base_v + node_cycles(w, edges, inside@, v, u as int),
                            lifts_cycles(w, edges, views(raw@), locs),
                            forall|c: int, x: usize, y: usize|
                                0 <= c < ci && #[trigger] cyclic_in(cs, edges, c, x, y) ==> both_covered(views(raw@), edges, w, x, y),
                            forall|x: usize, y: usize|
                                #[trigger] cyclic_in(cs, edges, ci as int, x, y) && y < v ==> both_covered(views(raw@), edges, w, x, y),
                            forall|x: usize|
                                #[trigger] cyclic_in(cs, edges, ci as int, x, v) && x < u ==> both_covered(views(raw@), edges, w, x, v),
                        decreases n - u,
                    {
                        let ghost raw_before = views(raw@);
                        if inside[u] && u != v && src[u] {
                            assert(into@.contains(u));
                            assert(has_edge(edges, u, v));
                            assert(in_comp(cs, ci as int, u));
                            proof {
                                let walk = lemma_walk_in_component(cs, n as nat, edges, ci as int, v, u);
                                assert forall|i: int| 0 <= i < walk.len() implies #[trigger] walk[i] < parent@.len()
                                    && inside@[walk[i] as int] by {
                                    assert(in_comp(cs, ci as int, walk[i]));
                                    let q = choose|q: int| 0 <= q < cs[ci as int].len() && cs[ci as int][q] == walk[i];
                                    assert(cs[ci as int][q] < n);
                                }
                                lemma_closed_walk(edges, inside@, parent@, walk);
                            }
                            let found = reconstruct(&parent, v, u, Ghost(edges), Ghost(inside@), Ghost(dist));
                            match found {
                                Some(path) => {
                                    let ghost loc = path@;
                                    proof {
                                        assert(loc.len() >= 2) by {
                                            if loc.len() < 2 {
                                                assert(loc[0] == loc.last());
                                            }
                                        }
                                        assert forall|j: int| 0 <= j < loc.len() implies #[trigger] cycle_step(edges, loc, j) by {
                                            if j < loc.len() - 1 {
                                                assert(step(edges, loc, j));
                                            } else {
                                                assert(loc[j] == u && loc[next_pos(loc.len() as int, j)] == v);
                                            }
                                        }
                                        assert(is_simple_cycle(edges, loc));
                                        lemma_tree_cycle(edges, inside@, v, u, parent@, dist, loc);
                                    }
                                    let lifted = weights_of(g, &path);
                                    proof {
                                        let lw = lift(w, loc);
                                        assert(arc(lw, lw.len() - 1) == (w[u as int], w[v as int]));
                                        assert(arc_set(lw).contains((w[u as int], w[v as int])));
                                    }
                                    raw.push(lifted);
                                    proof {
                                        let rv = views(raw@);
                                        assert(rv =~= raw_before.push(lift(w, loc)));
                                        assert(node_cycles(w, edges, inside@, v, u + 1) == node_cycles(w, edges, inside@, v, u as int).push(
                                            lift(w, tree_cycle(edges, inside@, v, u)),
                                        ));
                                        assert(rv =~= base_v + node_cycles(w, edges, inside@, v, u + 1));
                                        lemma_both_push(raw_before, edges, w, lift(w, loc));
                                        let old_locs = locs;
                                        locs = locs.push(loc);
                                        assert(both_covered(rv, edges, w, u, v)) by {
                                            assert(arc_set(rv[rv.len() - 1]).contains((w[u as int], w[v as int])));
                                            assert(rv[rv.len() - 1] == lift(w, loc));
                                            assert(loc.len() == dist[u as int] + 1);
                                            assert(is_walk(edges, loc) && loc[0] == v && loc.last() == u);
                                            assert forall|p: Seq<usize>| #[trigger] is_walk(edges, p) && p[0] == v && p.last() == u
                                                implies p.len() >= dist[u as int] + 1 by {
                                                lemma_walk_stays(cs, n as nat, edges, ci as int, p);
                                                assert forall|i: int| 0 <= i < p.len() implies #[trigger] p[i] < parent@.len()
                                                    && inside@[p[i] as int] by {
                                                    assert(p[i] < n && in_comp(cs, ci as int, p[i]));
                                                }
                                                lemma_tight_walk(edges, inside@, v, parent@, dist, p);
                                            }
                                            assert(shortest_walk(edges, v, u, (rv[rv.len() - 1].len() - 1) as nat));
                                        }
                                        assert forall|j: int| 0 <= j < loc.len() implies #[trigger] loc[j] < w.len() by {
                                            assert(loc[j] < parent@.len());
                                        }
                                        lemma_lifts_push(w, edges, raw_before, old_locs, lift(w, loc), loc);
                                    }
                                },
                                None => {
                                    assert(false);
                                },
                            }
                        } else {
                            proof {
                                assert(!(inside@[u as int] && u != v && has_edge(edges, u, v)));
                                assert(node_cycles(w, edges, inside@, v, u + 1) == node_cycles(w, edges, inside@, v, u as int));
                            }
                        }
                        proof {
                            assert forall|x: usize|
                                #[trigger] cyclic_in(cs, edges, ci as int, x, v) && x < u + 1 implies both_covered(views(raw@), edges, w, x, v) by {
                                if x != u {
                                    assert(both_covered(raw_before, edges, w, x, v));
                                } else {
                                    assert(inside@[x as int]);
                                    assert(into@.contains(x));
                                }
                            }
                        }
                        u = u + 1;
                    }
                    proof {
                        assert(comp_cycles(w, edges, inside@, v + 1) == comp_cycles(w, edges, inside@, v as int) + node_cycles(
                            w,
                            edges,
                            inside@,
                            v,
                            inside@.len() as int,
                        ));
                        assert(views(raw@) =~= base + comp_cycles(w, edges, inside@, v + 1));
                        assert forall|x: usize, y: usize|
                            #[trigger] cyclic_in(cs, edges, ci as int, x, y) && y < v + 1 implies both_covered(views(raw@), edges, w, x, y) by {
                            if y == v {
                                assert(x < n) by {
                                    let xi = choose|xi: int| 0 <= xi < cs[ci as int].len() && cs[ci as int][xi] == x;
                                    assert(cs[ci as int][xi] < n);
                                }
                            }
                        }
                    }
                } else {
                    proof {
                        assert(comp_cycles(w, edges, inside@, v + 1) == comp_cycles(w, edges, inside@, v as int));
                        assert forall|x: usize, y: usize|
                            #[trigger] cyclic_in(cs, edges, ci as int, x, y) && y < v + 1 implies both_covered(views(raw@), edges, w, x, y) by {
                            if y == v {
                                assert(inside@[y as int]);
                            }
                        }
                    }
                }
                v = v + 1;
            }
            proof {
                assert(raw_cycles(w, edges, cs, ci + 1) == raw_cycles(w, edges, cs, ci as int) + comp_cycles(
                    w,
                    edges,
                    member_marks(cs[ci as int], w.len()),
                    w.len() as int,
                ));
                assert(views(raw@) == raw_cycles(w, edges, cs, ci + 1));
                assert forall|c: int, x: usize, y: usize|
                    0 <= c < ci + 1 && #[trigger] cyclic_in(cs, edges, c, x, y) implies both_covered(views(raw@), edges, w, x, y) by {
                    if c == ci {
                        let yi = choose|yi: int| 0 <= yi < cs[c].len() && cs[c][yi] == y;
                        assert(cs[c][yi] < n);
                    }
                }
            }
        } else {
            proof {
                assert(views(groups@) == nontrivial(w, cs, ci + 1));
                assert(raw_cycles(w, edges, cs, ci + 1) == raw_cycles(w, edges, cs, ci as int));
                assert forall|c: int, x: usize, y: usize|
                    0 <= c < ci + 1 && #[trigger] cyclic_in(cs, edges, c, x, y) implies both_covered(views(raw@), edges, w, x, y) by {
                    if c == ci {
                        let xi = choose|xi: int| 0 <= xi < cs[c].len() && cs[c][xi] == x;
                        let yi = choose|yi: int| 0 <= yi < cs[c].len() && cs[c][yi] == y;
                        assert(xi != yi);
                    }
                }
            }
        }
        ci = ci + 1;
    }
    proof {
        assert forall|x: usize, y: usize|
            #![trigger has_edge(edges, x, y), reaches(edges, y, x)]
            has_edge(edges, x, y) && x != y && reaches(edges, y, x) implies both_covered(views(raw@), edges, w, x, y) by {
            let k = choose|k: int| 0 <= k < edges.len() && edges[k] == (x, y);
            assert(edges[k].0 < n && edges[k].1 < n);
            assert(crate::digraph::placed(cs, x));
            let c = choose|c: int| #[trigger] in_comp(cs, c, x);
            lemma_edge_reaches(edges, x, y);
            assert(in_comp(cs, c, y));
            assert(cyclic_in(cs, edges, c, x, y));
        }
    }
    (raw, groups, Ghost(locs))
}

/// The cycles kept of `raws`: the first of each set of arcs, rotated to
/// start at its smallest node.
pub open spec fn deduped(raws: Seq<Seq<usize>>) -> Seq<Seq<usize>>
    decreases raws.len(),
{
    if raws.len() == 0 {
        Seq::empty()
    } else {
        let prev = deduped(raws.drop_last());
        if exists|k: int| 0 <= k < prev.len() && arc_set(#[trigger] prev[k]) == arc_set(raws.last()) {
            prev
        } else {
            prev.push(canonical(raws.last()))
        }
    }
}

/// Keep the first cycle of each set of arcs, rotated to its canonical
/// start. Each kept cycle is a cycle of the graph starting at its smallest
/// node, no two keep the same arcs, and every raw cycle's arcs are some
/// kept cycle's.
pub(crate) fn dedup_cycles(
    raw: Vec<Vec<usize>>,
    Ghost(w): Ghost<Seq<usize>>,
    Ghost(edges): Ghost<Seq<(usize, usize)>>,
    Ghost(locs): Ghost<Seq<Seq<usize>>>,
) -> (res: Vec<Vec<usize>>)
    requires
        lifts_cycles(w, edges, views(raw@), locs),
    ensures
        views(res@) == deduped(views(raw@)),
        forall|k: int| 0 <= k < res@.len() ==> #[trigger] is_graph_cycle(w, edges, res@[k]@),
        forall|k: int| 0 <= k < res@.len() ==> is_first_min(#[trigger] res@[k]@, 0),
        forall|i: int, j: int|
            0 <= i < res@.len() && 0 <= j < res@.len() && i != j ==> arc_set(#[trigger] res@[i]@) != arc_set(
                #[trigger] res@[j]@,
            ),
        forall|i: int|
            0 <= i < raw@.len() ==> exists|k: int|
                0 <= k < res@.len() && arc_set(#[trigger] res@[k]@) == arc_set(#[trigger] raw@[i]@),
{
    let ghost rv = views(raw@);
    let mut kept: Vec<Vec<usize>> = Vec::new();
    let mut i: usize = 0;
    assert(views(kept@) =~= deduped(rv.take(0)));
    while i < raw.len()
        invariant
            i <= raw@.len(),
            rv == views(raw@),
            lifts_cycles(w, edges, rv, locs),
            views(kept@) == deduped(rv.take(i as int)),
            forall|k: int| 0 <= k < kept@.len() ==> #[trigger] is_graph_cycle(w, edges, kept@[k]@),
            forall|k: int| 0 <= k < kept@.len() ==> is_first_min(#[trigger] kept@[k]@, 0),
            forall|a: int, b: int|
                0 <= a < kept@.len() && 0 <= b < kept@.len() && a != b ==> arc_set(#[trigger] kept@[a]@) != arc_set(
                    #[trigger] kept@[b]@,
                ),
            forall|a: int|
                0 <= a < i ==> exists|k: int|
                    0 <= k < kept@.len() && arc_set(#[trigger] kept@[k]@) == arc_set(#[trigger] raw@[a]@),
        decreases raw.len() - i,
    {
        let r = &raw[i];
        assert(rv[i as int] == r@);
        let mut dup = false;
        let mut k: usize = 0;
        while k < kept.len()
            invariant
                k <= kept@.len(),
                dup ==> exists|q: int| 0 <= q < kept@.len() && arc_set(#[trigger] kept@[q]@) == arc_set(r@),
                !dup ==> forall|q: int| 0 <= q < k ==> arc_set(#[trigger] kept@[q]@) != arc_set(r@),
            decreases kept.len() - k,
        {
            if !dup && same_arcs(&kept[k], r) {
                dup = true;
            }
            k = k + 1;
        }
        let ghost prev = views(kept@);
        let ghost taken = rv.take(i + 1);
        assert(taken.drop_last() =~= rv.take(i as int));
        assert(taken.last() == r@);
        if !dup {
            let loc = Ghost(locs[i as int]);
            proof {
                assert(is_simple_cycle(edges, locs[i as int]));
                assert(r@ == lift(w, locs[i as int]));
            }
            let rotated_cycle = canonical_rotation(r.clone());
            proof {
                let lc = locs[i as int];
                let p0 = min_pos(r@);
                assert(r@.len() == lc.len());
                lemma_rotated_cycle(w, edges, lc, p0);
                lemma_rotated_arcs(r@, p0);
                assert(rotated_cycle@ == rotated(r@, p0));
                assert(is_graph_cycle(w, edges, rotated_cycle@));
                assert forall|q: int| 0 <= q < prev.len() implies arc_set(#[trigger] prev[q]) != arc_set(taken.last()) by {
                    assert(prev[q] == kept@[q]@);
                }
            }
            let ghost kept_before = kept@;
            kept.push(rotated_cycle);
            proof {
                assert(views(kept@) =~= prev.push(canonical(r@)));
                assert(arc_set(rotated_cycle@) == arc_set(r@));
                assert forall|a: int, b: int|
                    0 <= a < kept@.len() && 0 <= b < kept@.len() && a != b implies arc_set(#[trigger] kept@[a]@) != arc_set(
                        #[trigger] kept@[b]@,
                    ) by {
                    if a < kept_before.len() && b < kept_before.len() {
                        assert(kept@[a] == kept_before[a] && kept@[b] == kept_before[b]);
                    } else if a < kept_before.len() {
                        assert(kept@[a] == kept_before[a]);
                    } else {
                        assert(kept@[b] == kept_before[b]);
                    }
                }
                assert forall|a: int|
                    0 <= a < i + 1 implies exists|k: int|
                        0 <= k < kept@.len() && arc_set(#[trigger] kept@[k]@) == arc_set(#[trigger] raw@[a]@) by {
                    if a < i {
                        let k = choose|k: int|
                            0 <= k < kept_before.len() && arc_set(#[trigger] kept_before[k]@) == arc_set(#[trigger] raw@[a]@);
                        assert(kept@[k] == kept_before[k]);
                    } else {
                        assert(kept@[kept@.len() - 1] == rotated_cycle);
                    }
                }
                assert forall|k: int| 0 <= k < kept@.len() implies #[trigger] is_graph_cycle(w, edges, kept@[k]@) && is_first_min(kept@[k]@, 0) by {
                    if k < kept_before.len() {
                        assert(kept@[k] == kept_before[k]);
                    }
                }
            }
        } else {
            proof {
                let q = choose|q: int| 0 <= q < kept@.len() && arc_set(#[trigger] kept@[q]@) == arc_set(r@);
                assert(prev[q] == kept@[q]@);
                assert(deduped(taken) == prev);
            }
        }
        i = i + 1;
    }
    assert(rv.take(raw@.len() as int) =~= rv);
    kept
}

/// An elementary cycle in the module dependency graph (ordered path).
#[derive(Debug, Clone, PartialEq)]
pub struct Cycle {
    /// The node weights forming this elementary cycle, in order. The
    /// closing edge back to the first node is implied, not stored.
    pub path: Vec<usize>,
}

impl Cycle {
    /// The directed edges of this cycle: for a cycle `[A, B, C]` these are
    /// `(A, B), (B, C), (C, A)`.
    pub fn edges(&self) -> (res: Vec<(usize, usize)>)
        requires
            self.path@.len() > 0,
        ensures
            res@.len() == self.path@.len(),
            forall|j: int| 0 <= j < res@.len() ==> #[trigger] res@[j] == arc(self.path@, j),
    {
        let mut res: Vec<(usize, usize)> = Vec::new();
        let mut j: usize = 0;
        while j < self.path.len()
            invariant
                j <= self.path@.len(),
                res@.len() == j,
                forall|i: int| 0 <= i < j ==> #[trigger] res@[i] == arc(self.path@, i),
            decreases self.path.len() - j,
        {
            let nj = if j + 1 < self.path.len() {
                j + 1
            } else {
                0
            };
            res.push((self.path[j], self.path[nj]));
            j = j + 1;
        }
        res
    }
}

/// Result of the minimal-cycle-per-edge analysis.
#[derive(Debug)]
pub struct CycleAnalysis {
    /// Deduplicated minimal cycles (one shortest cycle per edge, dedup'd by
    /// arc-set, each rotated to start at its smallest node).
    pub cycles: Vec<Cycle>,
    /// For every cyclic edge: ascending indices into `cycles` it lies on.
    pub edge_cycles: EdgeCycles,
}

/// A copy of a path.
pub(crate) fn copy_path(v: &Vec<usize>) -> (res: Vec<usize>)
    ensures
        res@ == v@,
{
    let mut res: Vec<usize> = Vec::new();
    let mut i: usize = 0;
    while i < v.len()
        invariant
            i <= v@.len(),
            res@ == v@.take(i as int),
        decreases v.len() - i,
    {
        res.push(v[i]);
        i = i + 1;
        assert(res@ =~= v@.take(i as int));
    }
    assert(v@.take(v@.len() as int) =~= v@);
    res
}

/// The paths of the cycles of an analysis.
pub open spec fn paths(cycles: Seq<Cycle>) -> Seq<Seq<usize>> {
    cycles.map_values(|c: Cycle| c.path@)
}

/// For each edge inside a non-trivial strongly connected component, compute
/// the shortest cycle that carries it, then deduplicate by arc-set.
///
/// The node weights are expected to be the original node indices; the
/// cycles are given in weights. The cycles are exactly [`raw_cycles`] of
/// the components in the order the component search gives them, with each
/// set of arcs kept the first time it comes and rotated to start at its
/// smallest node ([`deduped`]). So every cycle kept is an elementary cycle
/// of the graph, no two run through the same arcs, every edge that lies on
/// some cycle of the graph lies on a kept one, and `edge_cycles` lists, for
/// each arc, the cycles running through it.
pub fn minimal_cycles(graph: &DiGraph<NodeIndex, ()>) -> (res: CycleAnalysis)
    ensures
        forall|k: int| 0 <= k < res.cycles@.len() ==> #[trigger] is_graph_cycle(
            node_weights(*graph),
            edge_list(*graph),
            res.cycles@[k].path@,
        ),
        forall|k: int| 0 <= k < res.cycles@.len() ==> is_first_min(#[trigger] res.cycles@[k].path@, 0),
        forall|i: int, j: int|
            0 <= i < res.cycles@.len() && 0 <= j < res.cycles@.len() && i != j ==> arc_set(
                #[trigger] res.cycles@[i].path@,
            ) != arc_set(#[trigger] res.cycles@[j].path@),
        forall|x: usize, y: usize|
            #![trigger has_edge(edge_list(*graph), x, y), reaches(edge_list(*graph), y, x)]
            has_edge(edge_list(*graph), x, y) && x != y && reaches(edge_list(*graph), y, x) ==> covered(
                paths(res.cycles@),
                node_weights(*graph)[x as int],
                node_weights(*graph)[y as int],
            ),
        indexes(res.edge_cycles, paths(res.cycles@)),
        exists|cs: Seq<Seq<usize>>|
            #[trigger] are_components(cs, node_weights(*graph).len(), edge_list(*graph)) && sinks_first(cs, edge_list(*graph))
                && paths(res.cycles@) == deduped(raw_cycles(node_weights(*graph), edge_list(*graph), cs, cs.len() as int)),
        distinct_weights(node_weights(*graph)) ==> forall|x: usize, y: usize|
            #![trigger has_edge(edge_list(*graph), x, y), reaches(edge_list(*graph), y, x)]
            has_edge(edge_list(*graph), x, y) && x != y && reaches(edge_list(*graph), y, x) ==> short_covered(
                paths(res.cycles@),
                edge_list(*graph),
                node_weights(*graph),
                x,
                y,
            ),
{
    let (raw, _groups, Ghost(locs)) = scan_components(graph);
    let ghost rv = views(raw@);
    let ghost cs = choose|cs: Seq<Seq<usize>>|
        #[trigger] are_components(cs, node_weights(*graph).len(), edge_list(*graph)) && sinks_first(cs, edge_list(*graph))
            && views(_groups@) == nontrivial(node_weights(*graph), cs, cs.len() as int) && rv == raw_cycles(
            node_weights(*graph),
            edge_list(*graph),
            cs,
            cs.len() as int,
        );
    let kept = dedup_cycles(raw, Ghost(node_weights(*graph)), Ghost(edge_list(*graph)), Ghost(locs));
    let edge_cycles = index_arcs(&kept);
    let ghost kv = views(kept@);
    let mut cycles: Vec<Cycle> = Vec::new();
    let mut i: usize = 0;
    while i < kept.len()
        invariant
            i <= kept@.len(),
            paths(cycles@) == kv.take(i as int),
            kv == views(kept@),
        decreases kept.len() - i,
    {
        let c = Cycle { path: copy_path(&kept[i]) };
        let ghost before = cycles@;
        cycles.push(c);
        proof {
            assert(cycles@ == before.push(c));
            assert(paths(cycles@) =~= paths(before).push(c.path@));
            assert(kv[i as int] == kept@[i as int]@);
            assert(kv.take(i + 1) =~= kv.take(i as int).push(kv[i as int]));
        }
        i = i + 1;
    }
    proof {
        assert(paths(cycles@) =~= kv);
        assert(are_components(cs, node_weights(*graph).len(), edge_list(*graph)));
        assert(paths(cycles@) == deduped(raw_cycles(node_weights(*graph), edge_list(*graph), cs, cs.len() as int)));
        assert forall|x: usize, y: usize|
            #![trigger has_edge(edge_list(*graph), x, y), reaches(edge_list(*graph), y, x)]
            has_edge(edge_list(*graph), x, y) && x != y && reaches(edge_list(*graph), y, x) implies covered(
                kv,
                node_weights(*graph)[x as int],
                node_weights(*graph)[y as int],
            ) by {
            let e = (node_weights(*graph)[x as int], node_weights(*graph)[y as int]);
            let r = choose|r: int| 0 <= r < rv.len() && #[trigger] arc_set(rv[r]).contains(e);
            assert(rv[r] == raw@[r]@);
            let k = choose|k: int| 0 <= k < kept@.len() && arc_set(#[trigger] kept@[k]@) == arc_set(#[trigger] raw@[r]@);
            assert(kv[k] == kept@[k]@);
            assert(arc_set(kv[k]).contains(e));
        }
        assert forall|k: int| 0 <= k < cycles@.len() implies #[trigger] cycles@[k].path@ == kept@[k]@ by {
            assert(paths(cycles@)[k] == kv[k]);
        }
        if distinct_weights(node_weights(*graph)) {
            assert forall|r: int| 0 <= r < rv.len() implies exists|k: int|
                0 <= k < kv.len() && arc_set(#[trigger] kv[k]) == arc_set(#[trigger] rv[r]) by {
                assert(rv[r] == raw@[r]@);
                let k = choose|k: int| 0 <= k < kept@.len() && arc_set(#[trigger] kept@[k]@) == arc_set(#[trigger] raw@[r]@);
                assert(kv[k] == kept@[k]@);
            }
            assert forall|k: int| 0 <= k < kv.len() implies #[trigger] is_graph_cycle(node_weights(*graph), edge_list(*graph), kv[k]) by {
                assert(kv[k] == kept@[k]@);
            }
            assert forall|x: usize, y: usize|
                #![trigger has_edge(edge_list(*graph), x, y), reaches(edge_list(*graph), y, x)]
                has_edge(edge_list(*graph), x, y) && x != y && reaches(edge_list(*graph), y, x) implies short_covered(
                paths(cycles@),
                edge_list(*graph),
                node_weights(*graph),
                x,
                y,
            ) by {
                lemma_short_kept(node_weights(*graph), edge_list(*graph), rv, locs, kv, x, y);
            }
        }
    }
    CycleAnalysis { cycles, edge_cycles }
}

/// Shortest cycle per edge, bounded and deterministic.
pub trait MinimalCycles {
    /// For each edge inside a non-trivial strongly connected component,
    /// compute the shortest cycle that carries it, then deduplicate by
    /// arc-set. See [`minimal_cycles`].
    fn minimal_cycles(&self) -> CycleAnalysis;
}

/// What [`minimal_cycles`] gives of `graph`: the tree cycles of the edges
/// inside the components, deduplicated by arcs; so elementary cycles of the
/// graph, each starting at its smallest node, no two through the same arcs,
/// every edge that lies on a cycle covered, and the arcs indexed.
pub open spec fn minimal_analysis(graph: DiGraph<NodeIndex, ()>, res: CycleAnalysis) -> bool {
    &&& forall|k: int| 0 <= k < res.cycles@.len() ==> #[trigger] is_graph_cycle(
        node_weights(graph),
        edge_list(graph),
        res.cycles@[k].path@,
    )
    &&& forall|k: int| 0 <= k < res.cycles@.len() ==> is_first_min(#[trigger] res.cycles@[k].path@, 0)
    &&& forall|i: int, j: int|
        0 <= i < res.cycles@.len() && 0 <= j < res.cycles@.len() && i != j ==> arc_set(
            #[trigger] res.cycles@[i].path@,
        ) != arc_set(#[trigger] res.cycles@[j].path@)
    &&& forall|x: usize, y: usize|
        #![trigger has_edge(edge_list(graph), x, y), reaches(edge_list(graph), y, x)]
        has_edge(edge_list(graph), x, y) && x != y && reaches(edge_list(graph), y, x) ==> covered(
            paths(res.cycles@),
            node_weights(graph)[x as int],
            node_weights(graph)[y as int],
        )
    &&& indexes(res.edge_cycles, paths(res.cycles@))
    &&& exists|cs: Seq<Seq<usize>>|
        #[trigger] are_components(cs, node_weights(graph).len(), edge_list(graph)) && sinks_first(cs, edge_list(graph))
            && paths(res.cycles@) == deduped(raw_cycles(node_weights(graph), edge_list(graph), cs, cs.len() as int))
    &&& distinct_weights(node_weights(graph)) ==> forall|x: usize, y: usize|
        #![trigger has_edge(edge_list(graph), x, y), reaches(edge_list(graph), y, x)]
        has_edge(edge_list(graph), x, y) && x != y && reaches(edge_list(graph), y, x) ==> short_covered(
            paths(res.cycles@),
            edge_list(graph),
            node_weights(graph),
            x,
            y,
        )
}

impl MinimalCycles for DiGraph<NodeIndex, ()> {
    fn minimal_cycles(&self) -> (res: CycleAnalysis)
        ensures
            minimal_analysis(*self, res),
    {
        minimal_cycles(self)
    }
}

} // verus!
