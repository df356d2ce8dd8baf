//! Representative-cycle detection for directed graphs: the minimal cycle
//! per edge of the layout's analysis, with each node's strongly connected
//! component, and the filtering of an analysis down to the cycles kept.

use std::collections::HashMap;

use petgraph::graph::{DiGraph, NodeIndex};
use vstd::prelude::*;

use crate::diagnose::order::is_first_min;
use crate::digraph::{are_components, sinks_first, edge_list, has_edge, in_comp, node_weights, reaches};
use crate::layout::cycles::{
    arc, arc_set, copy_path, covered, dedup_cycles, distinct_weights, lemma_short_kept, short_covered, index_arcs, indexes, is_graph_cycle, lift, nontrivial,
    scan_components, views, deduped, raw_cycles, EdgeCycles,
};

verus! {

broadcast use vstd::std_specs::hash::group_hash_axioms;

/// A cycle in the module dependency graph: a closed sequence of nodes.
#[derive(Debug, Clone, PartialEq)]
pub struct Cycle {
    /// The nodes of this cycle in order. The closing edge back to the first
    /// node is implied, not stored.
    pub nodes: Vec<usize>,
}

impl Cycle {
    /// The directed edges of this cycle: for a cycle `[A, B, C]` these are
    /// `(A, B), (B, C), (C, A)`.
    pub fn edges(&self) -> (res: Vec<(usize, usize)>)
        requires
            self.nodes@.len() > 0,
        ensures
            res@.len() == self.nodes@.len(),
            forall|j: int| 0 <= j < res@.len() ==> #[trigger] res@[j] == arc(self.nodes@, j),
    {
        let mut res: Vec<(usize, usize)> = Vec::new();
        let mut j: usize = 0;
        while j < self.nodes.len()
            invariant
                j <= self.nodes@.len(),
                res@.len() == j,
                forall|i: int| 0 <= i < j ==> #[trigger] res@[i] == arc(self.nodes@, i),
            decreases self.nodes.len() - j,
        {
            let nj = if j + 1 < self.nodes.len() {
                j + 1
            } else {
                0
            };
            res.push((self.nodes[j], self.nodes[nj]));
            j = j + 1;
        }
        res
    }
}

/// What the component ids say of the graph: a node has an id exactly when
/// another node lies on a cycle with it, and two nodes share an id exactly
/// when each reaches the other.
pub open spec fn scc_ids_ok(w: Seq<usize>, edges: Seq<(usize, usize)>, m: Map<usize, usize>) -> bool {
    &&& forall|x: usize|
        x < w.len() ==> (#[trigger] m.dom().contains(w[x as int]) <==> exists|z: usize|
            z < w.len() && z != x && #[trigger] reaches(edges, x, z) && reaches(edges, z, x))
    &&& forall|x: usize, y: usize|
        x < w.len() && y < w.len() && m.dom().contains(w[x as int]) && m.dom().contains(w[y as int]) ==> (
        #[trigger] m[w[x as int]] == #[trigger] m[w[y as int]] <==> reaches(edges, x, y) && reaches(edges, y, x))
}

/// Mapping the first `j` nodes of a group adds them with the id and leaves
/// the rest as it was.
pub proof fn lemma_with_group(m: Map<usize, usize>, g: Seq<usize>, id: usize, j: int)
    requires
        0 <= j <= g.len(),
    ensures
        forall|k: usize|
            #[trigger] with_group(m, g, id, j).dom().contains(k) <==> (m.dom().contains(k) || exists|t: int|
                0 <= t < j && g[t] == k),
        forall|k: usize| (exists|t: int| 0 <= t < j && g[t] == k) ==> #[trigger] with_group(m, g, id, j)[k] == id,
        forall|k: usize|
            !(exists|t: int| 0 <= t < j && g[t] == k) && m.dom().contains(k) ==> #[trigger] with_group(m, g, id, j)[k]
                == m[k],
    decreases j,
{
    if j > 0 {
        lemma_with_group(m, g, id, j - 1);
        let prev = with_group(m, g, id, j - 1);
        assert forall|k: usize| (exists|t: int| 0 <= t < j && g[t] == k) implies #[trigger] with_group(m, g, id, j)[k] == id by {
            if k != g[j - 1] {
                let t = choose|t: int| 0 <= t < j && g[t] == k;
                assert(exists|t2: int| 0 <= t2 < j - 1 && g[t2] == k);
            }
        }
        assert forall|k: usize| #[trigger] with_group(m, g, id, j).dom().contains(k) <==> (m.dom().contains(k) || exists|t: int|
                0 <= t < j && g[t] == k) by {
            if exists|t: int| 0 <= t < j && g[t] == k {
                let t = choose|t: int| 0 <= t < j && g[t] == k;
                if t < j - 1 {
                    assert(exists|t2: int| 0 <= t2 < j - 1 && g[t2] == k);
                }
            }
            if prev.dom().contains(k) && !m.dom().contains(k) {
                let t = choose|t: int| 0 <= t < j - 1 && g[t] == k;
                assert(0 <= t < j && g[t] == k);
            }
        }
        assert forall|k: usize|
            !(exists|t: int| 0 <= t < j && g[t] == k) && m.dom().contains(k) implies #[trigger] with_group(m, g, id, j)[k]
                == m[k] by {
            assert(k != g[j - 1]);
            if exists|t: int| 0 <= t < j - 1 && g[t] == k {
                let t = choose|t: int| 0 <= t < j - 1 && g[t] == k;
                assert(0 <= t < j && g[t] == k);
            }
        }
    }
}

/// The ids of the first `k` groups read no later group.
pub proof fn lemma_scc_ids_prefix(a: Seq<Seq<usize>>, b: Seq<Seq<usize>>, k: int)
    requires
        0 <= k <= a.len(),
        k <= b.len(),
        forall|i: int| 0 <= i < k ==> a[i] == b[i],
    ensures
        scc_ids(a, k) == scc_ids(b, k),
    decreases k,
{
    if k > 0 {
        lemma_scc_ids_prefix(a, b, k - 1);
    }
}

/// Components before `c2` of more than one node number fewer than those
/// before a later one, where `c1` is such a component.
pub proof fn lemma_nontrivial_grows(w: Seq<usize>, cs: Seq<Seq<usize>>, c1: int, c2: int)
    requires
        0 <= c1 < c2 <= cs.len(),
        cs[c1].len() > 1,
    ensures
        nontrivial(w, cs, c1).len() < nontrivial(w, cs, c2).len(),
    decreases c2,
{
    if c2 > c1 + 1 {
        lemma_nontrivial_grows(w, cs, c1, c2 - 1);
    }
}

/// Fewer components hold no more of more than one node.
pub proof fn lemma_nontrivial_le(w: Seq<usize>, cs: Seq<Seq<usize>>, i: int, j: int)
    requires
        0 <= i <= j <= cs.len(),
    ensures
        nontrivial(w, cs, i).len() <= nontrivial(w, cs, j).len(),
    decreases j,
{
    if j > i {
        lemma_nontrivial_le(w, cs, i, j - 1);
    }
}

/// The ids given to the components before `i` of more than one node: a node
/// of such a component has the id the number of them before its own.
pub proof fn lemma_ids_of_components(w: Seq<usize>, cs: Seq<Seq<usize>>, i: int)
    requires
        0 <= i <= cs.len(),
        nontrivial(w, cs, cs.len() as int).len() <= usize::MAX,
        distinct_weights(w),
        forall|c: int, t: int| 0 <= c < cs.len() && 0 <= t < cs[c].len() ==> #[trigger] cs[c][t] < w.len(),
        forall|c1: int, c2: int, a: usize| #[trigger] in_comp(cs, c1, a) && #[trigger] in_comp(cs, c2, a) ==> c1 == c2,
    ensures
        ({
            let g = nontrivial(w, cs, i);
            let m = scc_ids(g, g.len() as int);
            &&& forall|x: usize|
                x < w.len() ==> (#[trigger] m.dom().contains(w[x as int]) <==> exists|c: int|
                    0 <= c < i && #[trigger] in_comp(cs, c, x) && cs[c].len() > 1)
            &&& forall|x: usize, c: int|
                x < w.len() && 0 <= c < i && #[trigger] in_comp(cs, c, x) && cs[c].len() > 1 ==> m[w[x as int]]
                    == nontrivial(w, cs, c).len()
        }),
    decreases i,
{
    if i > 0 {
        lemma_ids_of_components(w, cs, i - 1);
        let g0 = nontrivial(w, cs, i - 1);
        let m0 = scc_ids(g0, g0.len() as int);
        let g = nontrivial(w, cs, i);
        let m = scc_ids(g, g.len() as int);
        lemma_nontrivial_le(w, cs, i - 1, cs.len() as int);
        if cs[i - 1].len() > 1 {
            let grp = lift(w, cs[i - 1]);
            let comp = cs[i - 1];
            assert(g == g0.push(grp));
            lemma_scc_ids_prefix(g, g0, g0.len() as int);
            assert(m == with_group(m0, grp, g0.len() as usize, grp.len() as int));
            lemma_with_group(m0, grp, g0.len() as usize, grp.len() as int);
            assert forall|x: usize| x < w.len() implies (#[trigger] m.dom().contains(w[x as int]) <==> exists|c: int|
                0 <= c < i && #[trigger] in_comp(cs, c, x) && cs[c].len() > 1) by {
                if exists|t: int| 0 <= t < grp.len() && grp[t] == w[x as int] {
                    let t = choose|t: int| 0 <= t < grp.len() && grp[t] == w[x as int];
                    assert(grp[t] == w[cs[i - 1][t] as int]);
                    assert(cs[i - 1][t] < w.len());
                    assert(cs[i - 1][t] == x);
                    assert(in_comp(cs, i - 1, x));
                }
                if in_comp(cs, i - 1, x) {
                    let t = choose|t: int| 0 <= t < comp.len() && #[trigger] comp[t] == x;
                    assert(grp[t] == w[x as int]);
                }
            }
            assert forall|x: usize, c: int|
                x < w.len() && 0 <= c < i && #[trigger] in_comp(cs, c, x) && cs[c].len() > 1 implies m[w[x as int]]
                    == nontrivial(w, cs, c).len() by {
                if c == i - 1 {
                    let t = choose|t: int| 0 <= t < comp.len() && #[trigger] comp[t] == x;
                    assert(grp[t] == w[x as int]);
                    assert(exists|t2: int| 0 <= t2 < grp.len() && grp[t2] == w[x as int]);
                    assert(m[w[x as int]] == g0.len() as usize);
                } else {
                    assert(!in_comp(cs, i - 1, x));
                    if exists|t: int| 0 <= t < grp.len() && grp[t] == w[x as int] {
                        let t = choose|t: int| 0 <= t < grp.len() && grp[t] == w[x as int];
                        assert(grp[t] == w[cs[i - 1][t] as int]);
                        assert(cs[i - 1][t] < w.len());
                        assert(cs[i - 1][t] == x);
                        assert(in_comp(cs, i - 1, x));
                    }
                }
            }
        } else {
            assert(g == g0);
        }
    }
}

/// Ids given by components of more than one node say which nodes lie on a
/// cycle together.
pub proof fn lemma_scc_ids_ok(w: Seq<usize>, edges: Seq<(usize, usize)>, cs: Seq<Seq<usize>>)
    requires
        distinct_weights(w),
        are_components(cs, w.len(), edges),
        nontrivial(w, cs, cs.len() as int).len() <= usize::MAX,
    ensures
        scc_ids_ok(w, edges, scc_ids(nontrivial(w, cs, cs.len() as int), nontrivial(w, cs, cs.len() as int).len() as int)),
{
    let n = w.len();
    let g = nontrivial(w, cs, cs.len() as int);
    let m = scc_ids(g, g.len() as int);
    assert forall|c: int, t: int| 0 <= c < cs.len() && 0 <= t < cs[c].len() implies #[trigger] cs[c][t] < w.len() by {
    }
    lemma_ids_of_components(w, cs, cs.len() as int);
    assert forall|x: usize|
        x < w.len() implies (#[trigger] m.dom().contains(w[x as int]) <==> exists|z: usize|
            z < w.len() && z != x && #[trigger] reaches(edges, x, z) && reaches(edges, z, x)) by {
        assert(crate::digraph::placed(cs, x));
        let c = choose|c: int| #[trigger] in_comp(cs, c, x);
        if m.dom().contains(w[x as int]) {
            let c2 = choose|c2: int| 0 <= c2 < cs.len() && #[trigger] in_comp(cs, c2, x) && cs[c2].len() > 1;
            let t = choose|t: int| 0 <= t < cs[c2].len() && cs[c2][t] == x;
            let t2: int = if t == 0 { 1 } else { 0 };
            let z = cs[c2][t2];
            assert(cs[c2].no_duplicates());
            assert(z != x);
            assert(in_comp(cs, c2, z));
            assert(reaches(edges, x, z) && reaches(edges, z, x));
        }
        if exists|z: usize| z < w.len() && z != x && #[trigger] reaches(edges, x, z) && reaches(edges, z, x) {
            let z = choose|z: usize| z < w.len() && z != x && #[trigger] reaches(edges, x, z) && reaches(edges, z, x);
            assert(in_comp(cs, c, z));
            let t = choose|t: int| 0 <= t < cs[c].len() && cs[c][t] == x;
            let t2 = choose|t2: int| 0 <= t2 < cs[c].len() && cs[c][t2] == z;
            assert(t != t2);
            assert(cs[c].len() > 1);
        }
    }
    assert forall|x: usize, y: usize|
        x < w.len() && y < w.len() && m.dom().contains(w[x as int]) && m.dom().contains(w[y as int]) implies (
        #[trigger] m[w[x as int]] == #[trigger] m[w[y as int]] <==> reaches(edges, x, y) && reaches(edges, y, x)) by {
        let cx = choose|c: int| 0 <= c < cs.len() && #[trigger] in_comp(cs, c, x) && cs[c].len() > 1;
        let cy = choose|c: int| 0 <= c < cs.len() && #[trigger] in_comp(cs, c, y) && cs[c].len() > 1;
        if cx < cy {
            lemma_nontrivial_grows(w, cs, cx, cy);
        } else if cy < cx {
            lemma_nontrivial_grows(w, cs, cy, cx);
        }
        if reaches(edges, x, y) && reaches(edges, y, x) {
            assert(in_comp(cs, cx, y));
        }
    }
}

/// Result of the representative-cycle analysis.
#[derive(Debug)]
pub struct CycleAnalysis {
    /// Deduplicated representative cycles (one shortest cycle per edge,
    /// dedup'd by arc-set, each rotated to start at its smallest node).
    pub cycles: Vec<Cycle>,
    /// For every cyclic edge: ascending indices into `cycles` it lies on.
    pub edge_cycles: EdgeCycles,
    /// For every node in a non-trivial component: its component id. Nodes
    /// outside any cycle are absent. Ids are assigned sequentially in
    /// `tarjan_scc` order.
    pub node_scc: HashMap<usize, usize>,
}

/// The node sequences of cycles.
pub open spec fn node_paths(cycles: Seq<Cycle>) -> Seq<Seq<usize>> {
    cycles.map_values(|c: Cycle| c.nodes@)
}

/// `m` with the first `j` nodes of a component mapped to its id `id`.
pub open spec fn with_group(m: Map<usize, usize>, group: Seq<usize>, id: usize, j: int) -> Map<usize, usize>
    decreases j,
{
    if j <= 0 || j > group.len() {
        m
    } else {
        with_group(m, group, id, j - 1).insert(group[j - 1], id)
    }
}

/// Each node of the first `i` components mapped to its component's
/// position; a node in a later component takes the later id.
pub open spec fn scc_ids(groups: Seq<Seq<usize>>, i: int) -> Map<usize, usize>
    decreases i,
{
    if i <= 0 || i > groups.len() {
        Map::empty()
    } else {
        with_group(scc_ids(groups, i - 1), groups[i - 1], (i - 1) as usize, groups[i - 1].len() as int)
    }
}

/// For each edge inside a non-trivial strongly connected component, compute
/// the shortest cycle that carries it, then deduplicate by arc-set; and give
/// every node of a non-trivial component that component's id.
///
/// The node weights are expected to be the original node indices; cycles
/// and ids are given in weights. The cycles are exactly the deduplicated
/// [`raw_cycles`] of the components, in the order the component search
/// gives them (the same cycles as `minimal_cycles`). So every cycle kept is
/// an elementary cycle of the graph starting at its smallest node, no two
/// run through the same arcs, every edge that lies on some cycle of the
/// graph lies on a kept one, and `edge_cycles` lists, for each arc, the
/// cycles running through it.
pub fn representative_cycles(graph: &DiGraph<NodeIndex, ()>) -> (res: CycleAnalysis)
    ensures
        forall|k: int| 0 <= k < res.cycles@.len() ==> #[trigger] is_graph_cycle(
            node_weights(*graph),
            edge_list(*graph),
            res.cycles@[k].nodes@,
        ),
        forall|k: int| 0 <= k < res.cycles@.len() ==> is_first_min(#[trigger] res.cycles@[k].nodes@, 0),
        forall|i: int, j: int|
            0 <= i < res.cycles@.len() && 0 <= j < res.cycles@.len() && i != j ==> arc_set(
                #[trigger] res.cycles@[i].nodes@,
            ) != arc_set(#[trigger] res.cycles@[j].nodes@),
        forall|x: usize, y: usize|
            #![trigger has_edge(edge_list(*graph), x, y), reaches(edge_list(*graph), y, x)]
            has_edge(edge_list(*graph), x, y) && x != y && reaches(edge_list(*graph), y, x) ==> covered(
                node_paths(res.cycles@),
                node_weights(*graph)[x as int],
                node_weights(*graph)[y as int],
            ),
        indexes(res.edge_cycles, node_paths(res.cycles@)),
        distinct_weights(node_weights(*graph)) ==> forall|x: usize, y: usize|
            #![trigger has_edge(edge_list(*graph), x, y), reaches(edge_list(*graph), y, x)]
            has_edge(edge_list(*graph), x, y) && x != y && reaches(edge_list(*graph), y, x) ==> short_covered(
                node_paths(res.cycles@),
                edge_list(*graph),
                node_weights(*graph),
                x,
                y,
            ),
        exists|cs: Seq<Seq<usize>>|
            #[trigger] are_components(cs, node_weights(*graph).len(), edge_list(*graph)) && sinks_first(cs, edge_list(*graph)) && res.node_scc@ == scc_ids(
                nontrivial(node_weights(*graph), cs, cs.len() as int),
                nontrivial(node_weights(*graph), cs, cs.len() as int).len() as int,
            ) && node_paths(res.cycles@) == deduped(raw_cycles(node_weights(*graph), edge_list(*graph), cs, cs.len() as int)),
        distinct_weights(node_weights(*graph)) ==> scc_ids_ok(node_weights(*graph), edge_list(*graph), res.node_scc@),
{
    let (raw, groups, Ghost(locs)) = scan_components(graph);
    let ghost gv = views(groups@);
    let ghost cs = choose|cs: Seq<Seq<usize>>|
        #[trigger] are_components(cs, node_weights(*graph).len(), edge_list(*graph)) && sinks_first(cs, edge_list(*graph)) && gv == nontrivial(
            node_weights(*graph),
            cs,
            cs.len() as int,
        ) && views(raw@) == raw_cycles(node_weights(*graph), edge_list(*graph), cs, cs.len() as int);
    let mut node_scc: HashMap<usize, usize> = HashMap::new();
    let mut id: usize = 0;
    while id < groups.len()
        invariant
            id <= groups@.len(),
            gv == views(groups@),
            node_scc@ == scc_ids(gv, id as int),
        decreases groups.len() - id,
    {
        let group = &groups[id];
        assert(gv[id as int] == group@);
        let mut j: usize = 0;
        while j < group.len()
            invariant
                id < groups@.len(),
                j <= group@.len(),
                gv[id as int] == group@,
                node_scc@ == with_group(scc_ids(gv, id as int), group@, id, j as int),
            decreases group.len() - j,
        {
            node_scc.insert(group[j], id);
            j = j + 1;
        }
        id = id + 1;
    }
    let ghost rv = views(raw@);
    let kept = dedup_cycles(raw, Ghost(node_weights(*graph)), Ghost(edge_list(*graph)), Ghost(locs));
    let edge_cycles = index_arcs(&kept);
    let ghost kv = views(kept@);
    let mut cycles: Vec<Cycle> = Vec::new();
    let mut i: usize = 0;
    while i < kept.len()
        invariant
            i <= kept@.len(),
            node_paths(cycles@) == kv.take(i as int),
            kv == views(kept@),
        decreases kept.len() - i,
    {
        let c = Cycle { nodes: copy_path(&kept[i]) };
        let ghost before = cycles@;
        cycles.push(c);
        proof {
            assert(cycles@ == before.push(c));
            assert(node_paths(cycles@) =~= node_paths(before).push(c.nodes@));
            assert(kv[i as int] == kept@[i as int]@);
            assert(kv.take(i + 1) =~= kv.take(i as int).push(kv[i as int]));
        }
        i = i + 1;
    }
    proof {
        assert(node_paths(cycles@) =~= kv);
        assert(node_paths(cycles@) == deduped(raw_cycles(node_weights(*graph), edge_list(*graph), cs, cs.len() as int)));
        assert forall|x: usize, y: usize|
            #![trigger has_edge(edge_list(*graph), x, y), reaches(edge_list(*graph), y, x)]
            has_edge(edge_list(*graph), x, y) && x != y && reaches(edge_list(*graph), y, x) implies covered(
                kv,
                node_weights(*graph)[x as int],
                node_weights(*graph)[y as int],
            ) by {
            let e = (node_weights(*graph)[x as int], node_weights(*graph)[y as int]);
            let r = choose|r: int| 0 <= r < rv.len() && #[trigger] arc_set(rv[r]).contains(e);
            assert(rv[r] == raw@[r]@);
            let k = choose|k: int| 0 <= k < kept@.len() && arc_set(#[trigger] kept@[k]@) == arc_set(#[trigger] raw@[r]@);
            assert(kv[k] == kept@[k]@);
            assert(arc_set(kv[k]).contains(e));
        }
        assert forall|k: int| 0 <= k < cycles@.len() implies #[trigger] cycles@[k].nodes@ == kept@[k]@ by {
            assert(node_paths(cycles@)[k] == kv[k]);
        }
        if distinct_weights(node_weights(*graph)) {
            assert forall|r: int| 0 <= r < rv.len() implies exists|k: int|
                0 <= k < kv.len() && arc_set(#[trigger] kv[k]) == arc_set(#[trigger] rv[r]) by {
                assert(rv[r] == raw@[r]@);
                let k = choose|k: int| 0 <= k < kept@.len() && arc_set(#[trigger] kept@[k]@) == arc_set(#[trigger] raw@[r]@);
                assert(kv[k] == kept@[k]@);
            }
            assert forall|k: int| 0 <= k < kv.len() implies #[trigger] is_graph_cycle(node_weights(*graph), edge_list(*graph), kv[k]) by {
                assert(kv[k] == kept@[k]@);
            }
            assert forall|x: usize, y: usize|
                #![trigger has_edge(edge_list(*graph), x, y), reaches(edge_list(*graph), y, x)]
                has_edge(edge_list(*graph), x, y) && x != y && reaches(edge_list(*graph), y, x) implies short_covered(
                node_paths(cycles@),
                edge_list(*graph),
                node_weights(*graph),
                x,
                y,
            ) by {
                lemma_short_kept(node_weights(*graph), edge_list(*graph), rv, locs, kv, x, y);
            }
        }
    }
    assert(are_components(cs, node_weights(*graph).len(), edge_list(*graph)));
    proof {
        if distinct_weights(node_weights(*graph)) {
            lemma_scc_ids_ok(node_weights(*graph), edge_list(*graph), cs);
        }
    }
    CycleAnalysis { cycles, edge_cycles, node_scc }
}

/// How many of the first `i` cycles are kept.
pub open spec fn kept_count(kept: Seq<bool>, i: int) -> nat
    decreases i,
{
    if i <= 0 || i > kept.len() {
        0
    } else {
        kept_count(kept, i - 1) + (if kept[i - 1] {
            1nat
        } else {
            0nat
        })
    }
}

/// The kept ones of the first `i` cycles, in order.
pub open spec fn kept_cycles(cycles: Seq<Seq<usize>>, kept: Seq<bool>, i: int) -> Seq<Seq<usize>>
    decreases i,
{
    if i <= 0 || i > cycles.len() || i > kept.len() {
        Seq::empty()
    } else if kept[i - 1] {
        kept_cycles(cycles, kept, i - 1).push(cycles[i - 1])
    } else {
        kept_cycles(cycles, kept, i - 1)
    }
}

/// A list of cycle indices with the dropped ones taken out and each kept
/// one moved to its new position.
pub open spec fn remap_list(l: Seq<usize>, kept: Seq<bool>) -> Seq<usize>
    decreases l.len(),
{
    if l.len() == 0 {
        Seq::empty()
    } else {
        let prev = remap_list(l.drop_last(), kept);
        if l.last() < kept.len() && kept[l.last() as int] {
            prev.push(kept_count(kept, l.last() as int) as usize)
        } else {
            prev
        }
    }
}

/// The entries of an arc index with their lists remapped, an entry whose
/// list comes out empty dropped.
pub open spec fn remap_entries(es: Seq<((usize, usize), Seq<usize>)>, kept: Seq<bool>) -> Seq<
    ((usize, usize), Seq<usize>),
>
    decreases es.len(),
{
    if es.len() == 0 {
        Seq::empty()
    } else {
        let prev = remap_entries(es.drop_last(), kept);
        let l = remap_list(es.last().1, kept);
        if l.len() > 0 {
            prev.push((es.last().0, l))
        } else {
            prev
        }
    }
}

/// The entries of an arc index as plain values.
pub open spec fn entry_views(ec: EdgeCycles) -> Seq<((usize, usize), Seq<usize>)> {
    ec.entries@.map_values(|e: ((usize, usize), Vec<usize>)| (e.0, e.1@))
}

/// Whether `after` is `before` with the cycles `kept` marks kept: the cycles
/// filtered in order, the arc index remapped, the components unchanged.
pub open spec fn retained(before: CycleAnalysis, after: CycleAnalysis, kept: Seq<bool>) -> bool {
    &&& kept.len() == before.cycles@.len()
    &&& node_paths(after.cycles@) == kept_cycles(node_paths(before.cycles@), kept, kept.len() as int)
    &&& entry_views(after.edge_cycles) == remap_entries(entry_views(before.edge_cycles), kept)
    &&& after.node_scc@ == before.node_scc@
}

impl CycleAnalysis {
    /// Keep only the cycles `keep` accepts, remapping the indices in
    /// `edge_cycles` to the new positions and dropping an arc left with no
    /// cycle.
    pub fn retain_cycles<F: Fn(&Cycle) -> bool>(&mut self, keep: F)
        requires
            forall|c: &Cycle| #[trigger] call_requires(keep, (c,)),
        ensures
            exists|kept: Seq<bool>|
                #[trigger] retained(*old(self), *final(self), kept) && forall|i: int|
                    0 <= i < kept.len() ==> call_ensures(keep, (&old(self).cycles@[i],), #[trigger] kept[i]),
    {
        let ghost before = *self;
        let mut decisions: Vec<bool> = Vec::new();
        let mut positions: Vec<usize> = Vec::new();
        let mut survivors: Vec<Cycle> = Vec::new();
        let mut i: usize = 0;
        assert(node_paths(survivors@) =~= kept_cycles(node_paths(before.cycles@), decisions@, 0));
        while i < self.cycles.len()
            invariant
                *self == before,
                forall|c: &Cycle| #[trigger] call_requires(keep, (c,)),
                i <= self.cycles@.len(),
                decisions@.len() == i,
                positions@.len() == i,
                forall|k: int| 0 <= k < i ==> call_ensures(keep, (&self.cycles@[k],), #[trigger] decisions@[k]),
                forall|k: int| 0 <= k < i ==> #[trigger] positions@[k] == kept_count(decisions@, k),
                survivors@.len() == kept_count(decisions@, i as int),
                node_paths(survivors@) == kept_cycles(node_paths(before.cycles@), decisions@, i as int),
            decreases self.cycles.len() - i,
        {
            let decision = keep(&self.cycles[i]);
            let ghost old_decisions = decisions@;
            let ghost old_survivors = survivors@;
            positions.push(survivors.len());
            decisions.push(decision);
            proof {
                assert(decisions@.take(i as int) =~= old_decisions);
                assert forall|k: int| 0 <= k <= i implies kept_count(decisions@, k) == kept_count(old_decisions, k) by {
                    assert forall|q: int| 0 <= q <= k implies kept_count(decisions@, q) == kept_count(old_decisions, q) by {
                        lemma_kept_count_prefix(decisions@, old_decisions, q);
                    }
                }
                assert forall|k: int| 0 <= k <= i implies kept_cycles(node_paths(before.cycles@), decisions@, k)
                    == kept_cycles(node_paths(before.cycles@), old_decisions, k) by {
                    lemma_kept_cycles_prefix(node_paths(before.cycles@), decisions@, old_decisions, k);
                }
            }
            if decision {
                let c = Cycle { nodes: copy_path(&self.cycles[i].nodes) };
                survivors.push(c);
                proof {
                    assert(survivors@ == old_survivors.push(c));
                    assert(node_paths(survivors@) =~= node_paths(old_survivors).push(c.nodes@));
                    assert(node_paths(before.cycles@)[i as int] == self.cycles@[i as int].nodes@);
                }
            }
            i = i + 1;
        }
        let mut entries: Vec<((usize, usize), Vec<usize>)> = Vec::new();
        let mut e: usize = 0;
        let ghost es = entry_views(before.edge_cycles);
        assert(entries@.map_values(|x: ((usize, usize), Vec<usize>)| (x.0, x.1@)) =~= remap_entries(es.take(0), decisions@));
        while e < self.edge_cycles.entries.len()
            invariant
                *self == before,
                es == entry_views(before.edge_cycles),
                e <= es.len(),
                decisions@.len() == self.cycles@.len(),
                positions@.len() == decisions@.len(),
                forall|k: int| 0 <= k < positions@.len() ==> #[trigger] positions@[k] == kept_count(decisions@, k),
                entries@.map_values(|x: ((usize, usize), Vec<usize>)| (x.0, x.1@)) == remap_entries(es.take(e as int), decisions@),
            decreases self.edge_cycles.entries.len() - e,
        {
            let entry = &self.edge_cycles.entries[e];
            assert(es[e as int] == (entry.0, entry.1@));
            let list = &entry.1;
            let mut remapped: Vec<usize> = Vec::new();
            let mut j: usize = 0;
            while j < list.len()
                invariant
                    j <= list@.len(),
                    decisions@.len() == positions@.len(),
                    forall|k: int| 0 <= k < positions@.len() ==> #[trigger] positions@[k] == kept_count(decisions@, k),
                    remapped@ == remap_list(list@.take(j as int), decisions@),
                decreases list.len() - j,
            {
                let idx = list[j];
                assert(list@.take(j + 1).drop_last() =~= list@.take(j as int));
                if idx < decisions.len() && decisions[idx] {
                    remapped.push(positions[idx]);
                }
                j = j + 1;
            }
            assert(list@.take(list@.len() as int) =~= list@);
            let ghost before_entries = entries@;
            assert(es.take(e + 1).drop_last() =~= es.take(e as int));
            if remapped.len() > 0 {
                entries.push((entry.0, remapped));
                assert(entries@.map_values(|x: ((usize, usize), Vec<usize>)| (x.0, x.1@)) =~= before_entries.map_values(
                    |x: ((usize, usize), Vec<usize>)| (x.0, x.1@),
                ).push((entry.0, remapped@)));
            }
            e = e + 1;
        }
        assert(es.take(es.len() as int) =~= es);
        self.cycles = survivors;
        self.edge_cycles = EdgeCycles { entries };
        assert(retained(before, *self, decisions@));
    }
}

/// Counting kept cycles looks at no decision past the count.
pub proof fn lemma_kept_count_prefix(a: Seq<bool>, b: Seq<bool>, i: int)
    requires
        0 <= i <= b.len(),
        b.len() <= a.len(),
        forall|k: int| 0 <= k < b.len() ==> a[k] == b[k],
    ensures
        kept_count(a, i) == kept_count(b, i),
    decreases i,
{
    if i > 0 {
        lemma_kept_count_prefix(a, b, i - 1);
    }
}

/// Filtering kept cycles looks at no decision past the count.
pub proof fn lemma_kept_cycles_prefix(cycles: Seq<Seq<usize>>, a: Seq<bool>, b: Seq<bool>, i: int)
    requires
        0 <= i <= b.len(),
        b.len() <= a.len(),
        forall|k: int| 0 <= k < b.len() ==> a[k] == b[k],
    ensures
        kept_cycles(cycles, a, i) == kept_cycles(cycles, b, i),
    decreases i,
{
    if i > 0 {
        lemma_kept_cycles_prefix(cycles, a, b, i - 1);
    }
}

/// Shortest cycle per edge, bounded and deterministic.
pub trait RepresentativeCycles {
    /// See [`representative_cycles`].
    fn representative_cycles(&self) -> CycleAnalysis;
}

/// What [`representative_cycles`] gives of `graph`: the tree cycles of the
/// edges inside the components, deduplicated by arcs (so elementary cycles
/// of the graph, each starting at its smallest node, no two through the same
/// arcs, every edge that lies on a cycle covered), the arcs indexed, and
/// each node of a non-trivial component given that component's id.
pub open spec fn representative_analysis(graph: DiGraph<NodeIndex, ()>, res: CycleAnalysis) -> bool {
    &&& forall|k: int| 0 <= k < res.cycles@.len() ==> #[trigger] is_graph_cycle(
        node_weights(graph),
        edge_list(graph),
        res.cycles@[k].nodes@,
    )
    &&& forall|k: int| 0 <= k < res.cycles@.len() ==> is_first_min(#[trigger] res.cycles@[k].nodes@, 0)
    &&& forall|i: int, j: int|
        0 <= i < res.cycles@.len() && 0 <= j < res.cycles@.len() && i != j ==> arc_set(
            #[trigger] res.cycles@[i].nodes@,
        ) != arc_set(#[trigger] res.cycles@[j].nodes@)
    &&& forall|x: usize, y: usize|
        #![trigger has_edge(edge_list(graph), x, y), reaches(edge_list(graph), y, x)]
        has_edge(edge_list(graph), x, y) && x != y && reaches(edge_list(graph), y, x) ==> covered(
            node_paths(res.cycles@),
            node_weights(graph)[x as int],
            node_weights(graph)[y as int],
        )
    &&& indexes(res.edge_cycles, node_paths(res.cycles@))
    &&& distinct_weights(node_weights(graph)) ==> forall|x: usize, y: usize|
        #![trigger has_edge(edge_list(graph), x, y), reaches(edge_list(graph), y, x)]
        has_edge(edge_list(graph), x, y) && x != y && reaches(edge_list(graph), y, x) ==> short_covered(
            node_paths(res.cycles@),
            edge_list(graph),
            node_weights(graph),
            x,
            y,
        )
    &&& exists|cs: Seq<Seq<usize>>|
        #[trigger] are_components(cs, node_weights(graph).len(), edge_list(graph)) && sinks_first(cs, edge_list(graph)) && res.node_scc@ == scc_ids(
            nontrivial(node_weights(graph), cs, cs.len() as int),
            nontrivial(node_weights(graph), cs, cs.len() as int).len() as int,
        ) && node_paths(res.cycles@) == deduped(raw_cycles(node_weights(graph), edge_list(graph), cs, cs.len() as int))
    &&& distinct_weights(node_weights(graph)) ==> scc_ids_ok(node_weights(graph), edge_list(graph), res.node_scc@)
}

impl RepresentativeCycles for DiGraph<NodeIndex, ()> {
    fn representative_cycles(&self) -> (res: CycleAnalysis)
        ensures
            representative_analysis(*self, res),
    {
        representative_cycles(self)
    }
}

} // verus!
