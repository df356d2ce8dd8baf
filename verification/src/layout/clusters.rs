//! Cycle clusters with cut-sets: the minimal cycles grouped by strongly
//! connected component and, per cluster, a set of edges whose removal
//! breaks every cycle in it, chosen greedily over the cycles and then
//! checked against the component structure, with a re-cover of whatever
//! cycles survive.

use vstd::prelude::*;

use petgraph::graph::{DiGraph, NodeIndex};

use crate::digraph::{
    add_index_node, add_unit_edge, are_components, edge_list, has_edge, in_comp, is_walk, lemma_reaches_trans,
    lemma_walk_split, new_index_graph, node_weights, placed, reaches, step, strongly_connected,
};
use crate::graph::{
    arc_edges_within, bias_of, bias_rank, containment_acyclic, cycle_pairs, kept_for_cycles, qualified, refs_between,
    ArcGraph, CutBias, Edge, Node, Reexports,
};
use crate::layout::cycles::{
    arc, arc_hits, arc_set, covered, cycle_step, indexes, is_graph_cycle, lemma_arc_hits, minimal_analysis, minimal_cycles,
    next_pos, paths, EdgeCycles,
};
use crate::digraph::edges_within;
use crate::layout::cycles::CycleAnalysis;
use crate::sorting::{less_than, seq_less};
use crate::text::chars_of;

verus! {

/// What ranks a candidate cut: the open cycles it breaks, its bias, its
/// reference sites and the names of its ends.
pub ghost struct Rank {
    pub count: nat,
    pub bias: int,
    pub refs: nat,
    pub names: (Seq<char>, Seq<char>),
}

/// Whether one pair of names sorts before another: by the first, then
/// the second.
pub open spec fn names_before(x: (Seq<char>, Seq<char>), y: (Seq<char>, Seq<char>)) -> bool {
    seq_less(x.0, y.0) || (x.0 == y.0 && seq_less(x.1, y.1))
}

/// Whether `a` is a better cut than `b`: more cycles broken, then the
/// better bias, then fewer reference sites, then the smaller names.
pub open spec fn outranks(a: Rank, b: Rank) -> bool {
    a.count > b.count || (a.count == b.count && (a.bias > b.bias || (a.bias == b.bias && (a.refs < b.refs || (
    a.refs == b.refs && names_before(a.names, b.names))))))
}

/// A candidate cut: an edge with what ranks it besides its cycles.
pub struct Candidate {
    pub edge: (usize, usize),
    pub bias: CutBias,
    pub refs: usize,
    pub from_name: String,
    pub to_name: String,
}

/// The rank of a candidate that breaks `count` open cycles.
pub open spec fn rank_of(c: Candidate, count: nat) -> Rank {
    Rank { count, bias: bias_rank(c.bias), refs: c.refs as nat, names: (c.from_name@, c.to_name@) }
}

/// The elements of `s` not in `t`, in order.
pub open spec fn minus(s: Seq<usize>, t: Seq<usize>) -> Seq<usize>
    decreases s.len(),
{
    if s.len() == 0 {
        Seq::empty()
    } else if t.contains(s.last()) {
        minus(s.drop_last(), t)
    } else {
        minus(s.drop_last(), t).push(s.last())
    }
}

/// The coverage after picking candidate `i`: its cycles are closed, in
/// every candidate, and it leaves the race.
pub open spec fn step_cover(cov: Seq<Seq<usize>>, i: int) -> Seq<Seq<usize>> {
    Seq::new(cov.len(), |j: int| if j == i { Seq::empty() } else { minus(cov[j], cov[i]) })
}

/// The coverage after the picks, in order.
pub open spec fn after_picks(cov: Seq<Seq<usize>>, picks: Seq<usize>) -> Seq<Seq<usize>>
    decreases picks.len(),
{
    if picks.len() == 0 {
        cov
    } else {
        step_cover(after_picks(cov, picks.drop_last()), picks.last() as int)
    }
}

/// Whether `i` is a best pick: it still breaks an open cycle and no
/// candidate that does outranks it.
pub open spec fn best_pick(cands: Seq<Candidate>, cov: Seq<Seq<usize>>, i: int) -> bool {
    &&& 0 <= i < cov.len()
    &&& cov[i].len() > 0
    &&& forall|j: int|
        0 <= j < cov.len() && (#[trigger] cov[j]).len() > 0 ==> !outranks(
            rank_of(cands[j], cov[j].len()),
            rank_of(cands[i], cov[i].len()),
        )
}

/// Whether each pick was a best pick when it was made.
pub open spec fn picks_valid(cands: Seq<Candidate>, cov: Seq<Seq<usize>>, picks: Seq<usize>) -> bool
    decreases picks.len(),
{
    if picks.len() == 0 {
        true
    } else {
        picks_valid(cands, cov, picks.drop_last()) && best_pick(
            cands,
            after_picks(cov, picks.drop_last()),
            picks.last() as int,
        )
    }
}

/// Whether `picks` is a greedy cover: best picks until no candidate
/// breaks an open cycle.
pub open spec fn greedy_cover_of(cands: Seq<Candidate>, cov: Seq<Seq<usize>>, picks: Seq<usize>) -> bool {
    &&& picks_valid(cands, cov, picks)
    &&& forall|j: int| 0 <= j < cov.len() ==> (#[trigger] after_picks(cov, picks)[j]).len() == 0
}

/// The cycles of each candidate, as plain values.
pub open spec fn cover_view(v: Seq<Vec<usize>>) -> Seq<Seq<usize>> {
    v.map_values(|c: Vec<usize>| c@)
}

/// The total number of open cycle entries.
pub open spec fn cover_size(cov: Seq<Seq<usize>>) -> nat
    decreases cov.len(),
{
    if cov.len() == 0 {
        0
    } else {
        cover_size(cov.drop_last()) + cov.last().len()
    }
}

/// Taking elements out never lengthens.
pub proof fn lemma_minus_len(s: Seq<usize>, t: Seq<usize>)
    ensures
        minus(s, t).len() <= s.len(),
    decreases s.len(),
{
    if s.len() > 0 {
        lemma_minus_len(s.drop_last(), t);
    }
}

/// Shrinking every entry and emptying a non-empty one shrinks the total.
pub proof fn lemma_cover_size_drop(a: Seq<Seq<usize>>, b: Seq<Seq<usize>>, i: int)
    requires
        a.len() == b.len(),
        0 <= i < a.len(),
        a[i].len() > 0,
        b[i].len() == 0,
        forall|j: int| 0 <= j < a.len() ==> (#[trigger] b[j]).len() <= a[j].len(),
    ensures
        cover_size(b) < cover_size(a),
    decreases a.len(),
{
    if i == a.len() - 1 {
        lemma_cover_size_le(a.drop_last(), b.drop_last());
    } else {
        lemma_cover_size_drop(a.drop_last(), b.drop_last(), i);
    }
}

/// Shrinking every entry never grows the total.
pub proof fn lemma_cover_size_le(a: Seq<Seq<usize>>, b: Seq<Seq<usize>>)
    requires
        a.len() == b.len(),
        forall|j: int| 0 <= j < a.len() ==> (#[trigger] b[j]).len() <= a[j].len(),
    ensures
        cover_size(b) <= cover_size(a),
    decreases a.len(),
{
    if a.len() > 0 {
        lemma_cover_size_le(a.drop_last(), b.drop_last());
    }
}

/// The elements of `s` not in `t`, in order.
fn minus_exec(s: &Vec<usize>, t: &Vec<usize>) -> (res: Vec<usize>)
    ensures
        res@ == minus(s@, t@),
{
    let mut res: Vec<usize> = Vec::new();
    let mut k: usize = 0;
    while k < s.len()
        invariant
            k <= s@.len(),
            res@ == minus(s@.take(k as int), t@),
        decreases s.len() - k,
    {
        let x = s[k];
        let mut found = false;
        let mut q: usize = 0;
        while q < t.len()
            invariant
                q <= t@.len(),
                found == t@.take(q as int).contains(x),
            decreases t.len() - q,
        {
            proof {
                let pre = t@.take(q as int);
                assert(t@.take(q + 1) =~= pre.push(t@[q as int]));
                if pre.contains(x) {
                    let w = choose|w: int| 0 <= w < pre.len() && pre[w] == x;
                    assert(pre.push(t@[q as int])[w] == x);
                }
                if pre.push(t@[q as int]).contains(x) && t@[q as int] != x {
                    let w = choose|w: int| 0 <= w < pre.len() + 1 && pre.push(t@[q as int])[w] == x;
                    assert(pre[w] == x);
                }
                if t@[q as int] == x {
                    assert(pre.push(t@[q as int])[pre.len() as int] == x);
                }
            }
            if t[q] == x {
                found = true;
            }
            q = q + 1;
        }
        assert(t@.take(t@.len() as int) =~= t@);
        assert(s@.take(k + 1).drop_last() =~= s@.take(k as int));
        assert(s@.take(k + 1).last() == x);
        let ghost prev = res@;
        if !found {
            res.push(x);
            assert(res@ == prev.push(x));
        }
        assert(res@ == minus(s@.take(k + 1), t@));
        k = k + 1;
    }
    assert(s@.take(s@.len() as int) =~= s@);
    res
}

/// Whether candidate `a`, breaking `na` open cycles, is a better cut than
/// `b`, breaking `nb`.
fn outranks_exec(a: &Candidate, na: usize, b: &Candidate, nb: usize) -> (res: bool)
    ensures
        res == outranks(rank_of(*a, na as nat), rank_of(*b, nb as nat)),
{
    if na != nb {
        return na > nb;
    }
    let ra: u8 = match a.bias {
        CutBias::Skeletal => 0,
        CutBias::Neutral => 1,
        CutBias::Preferred => 2,
    };
    let rb: u8 = match b.bias {
        CutBias::Skeletal => 0,
        CutBias::Neutral => 1,
        CutBias::Preferred => 2,
    };
    if ra != rb {
        return ra > rb;
    }
    if a.refs != b.refs {
        return a.refs < b.refs;
    }
    let af = chars_of(a.from_name.as_str());
    let bf = chars_of(b.from_name.as_str());
    if less_than(&af, &bf) {
        return true;
    }
    if less_than(&bf, &af) {
        return false;
    }
    proof {
        crate::sorting::lemma_less_total(af@, bf@);
    }
    let at = chars_of(a.to_name.as_str());
    let bt = chars_of(b.to_name.as_str());
    less_than(&at, &bt)
}

/// Pick the best candidate again and again, closing the cycles it breaks
/// in every candidate, until none breaks an open cycle. Returns the picks
/// in order; a tie goes to the first best candidate.
pub fn greedy_cover(cands: &Vec<Candidate>, coverage: &Vec<Vec<usize>>) -> (res: Vec<usize>)
    requires
        cands@.len() == coverage@.len(),
    ensures
        greedy_cover_of(cands@, cover_view(coverage@), res@),
{
    let ghost cov0 = cover_view(coverage@);
    let mut cov: Vec<Vec<usize>> = Vec::new();
    let mut k: usize = 0;
    while k < coverage.len()
        invariant
            k <= coverage@.len(),
            cov@.len() == k,
            forall|r: int| 0 <= r < k ==> (#[trigger] cov@[r])@ == coverage@[r]@,
        decreases coverage.len() - k,
    {
        cov.push(coverage[k].clone());
        k = k + 1;
    }
    assert(cover_view(cov@) =~= cov0);
    assert(cov0 == after_picks(cov0, Seq::<usize>::empty()));
    let mut picks: Vec<usize> = Vec::new();
    loop
        invariant
            cov0 == cover_view(coverage@),
            cands@.len() == cov@.len(),
            cov0.len() == cov@.len(),
            cover_view(cov@) == after_picks(cov0, picks@),
            picks_valid(cands@, cov0, picks@),
        decreases cover_size(cover_view(cov@)),
    {
        let ghost cv = cover_view(cov@);
        let mut best: Option<usize> = None;
        let mut j: usize = 0;
        while j < cov.len()
            invariant
                j <= cov@.len(),
                cands@.len() == cov@.len(),
                cov0.len() == cov@.len(),
                cv == cover_view(cov@),
                cv == after_picks(cov0, picks@),
                picks_valid(cands@, cov0, picks@),
                match best {
                    Some(b) => b < j && cv[b as int].len() > 0 && forall|q: int|
                        0 <= q < j && (#[trigger] cv[q]).len() > 0 ==> !outranks(
                            rank_of(cands@[q], cv[q].len()),
                            rank_of(cands@[b as int], cv[b as int].len()),
                        ),
                    None => forall|q: int| 0 <= q < j ==> (#[trigger] cv[q]).len() == 0,
                },
            decreases cov.len() - j,
        {
            assert(cv[j as int] == cov@[j as int]@);
            if cov[j].len() > 0 {
                match best {
                    None => {
                        proof {
                            lemma_outranks_order(
                                rank_of(cands@[j as int], cv[j as int].len()),
                                rank_of(cands@[j as int], cv[j as int].len()),
                                rank_of(cands@[j as int], cv[j as int].len()),
                            );
                        }
                        best = Some(j);
                    },
                    Some(b) => {
                        assert(cv[b as int] == cov@[b as int]@);
                        if outranks_exec(&cands[j], cov[j].len(), &cands[b], cov[b].len()) {
                            proof {
                                lemma_outranks_order(
                                    rank_of(cands@[j as int], cv[j as int].len()),
                                    rank_of(cands@[j as int], cv[j as int].len()),
                                    rank_of(cands@[j as int], cv[j as int].len()),
                                );
                                assert forall|q: int|
                                    0 <= q < j + 1 && (#[trigger] cv[q]).len() > 0 implies !outranks(
                                    rank_of(cands@[q], cv[q].len()),
                                    rank_of(cands@[j as int], cv[j as int].len()),
                                ) by {
                                    lemma_outranks_order(
                                        rank_of(cands@[q], cv[q].len()),
                                        rank_of(cands@[j as int], cv[j as int].len()),
                                        rank_of(cands@[b as int], cv[b as int].len()),
                                    );
                                }
                            }
                            best = Some(j);
                        } else {
                            proof {
                                lemma_outranks_order(
                                    rank_of(cands@[j as int], cv[j as int].len()),
                                    rank_of(cands@[b as int], cv[b as int].len()),
                                    rank_of(cands@[j as int], cv[j as int].len()),
                                );
                            }
                        }
                    },
                }
            }
            j = j + 1;
        }
        match best {
            None => {
                assert forall|q: int| 0 <= q < cov0.len() implies (#[trigger] after_picks(cov0, picks@)[q]).len() == 0 by {
                    assert(cv[q].len() == 0);
                }
                assert(greedy_cover_of(cands@, cov0, picks@));
                return picks;
            },
            Some(b) => {
                let taken = cov[b].clone();
                assert(taken@ == cv[b as int]);
                let mut next: Vec<Vec<usize>> = Vec::new();
                let mut q: usize = 0;
                while q < cov.len()
                    invariant
                        q <= cov@.len(),
                        b < cov@.len(),
                        cv == cover_view(cov@),
                        taken@ == cv[b as int],
                        next@.len() == q,
                        forall|r: int| 0 <= r < q ==> (#[trigger] next@[r])@ == step_cover(cv, b as int)[r],
                    decreases cov.len() - q,
                {
                    assert(cv[q as int] == cov@[q as int]@);
                    if q == b {
                        next.push(Vec::new());
                    } else {
                        next.push(minus_exec(&cov[q], &taken));
                    }
                    q = q + 1;
                }
                let ghost before = picks@;
                picks.push(b);
                proof {
                    assert(picks@.drop_last() == before);
                    assert(picks@.last() == b);
                    assert(best_pick(cands@, cv, b as int));
                    assert(after_picks(cov0, picks@) == step_cover(cv, b as int));
                    assert(cover_view(next@) =~= step_cover(cv, b as int));
                    assert forall|r: int| 0 <= r < cv.len() implies (#[trigger] step_cover(cv, b as int)[r]).len() <= cv[r].len() by {
                        if r != b {
                            lemma_minus_len(cv[r], cv[b as int]);
                        }
                    }
                    lemma_cover_size_drop(cv, step_cover(cv, b as int), b as int);
                }
                cov = next;
            },
        }
    }
}

/// Outranking is a strict order: nothing outranks itself, and what
/// outranks a candidate that outranks a third outranks the third.
pub proof fn lemma_outranks_order(a: Rank, b: Rank, c: Rank)
    ensures
        !outranks(a, a),
        outranks(a, b) && outranks(b, c) ==> outranks(a, c),
{
    crate::sorting::lemma_less_irreflexive(a.names.0);
    crate::sorting::lemma_less_irreflexive(a.names.1);
    if outranks(a, b) && outranks(b, c) && a.count == c.count && a.bias == c.bias && a.refs == c.refs {
        assert(a.count == b.count && a.bias == b.bias && a.refs == b.refs);
        assert(names_before(a.names, b.names) && names_before(b.names, c.names));
        if seq_less(a.names.0, b.names.0) {
            if seq_less(b.names.0, c.names.0) {
                crate::sorting::lemma_less_transitive(a.names.0, b.names.0, c.names.0);
            }
        } else if seq_less(b.names.0, c.names.0) {
        } else {
            crate::sorting::lemma_less_transitive(a.names.1, b.names.1, c.names.1);
        }
    }
}

/// The nodes marked.
pub open spec fn marked(marks: Seq<bool>) -> Set<usize> {
    Set::new(|x: usize| x < marks.len() && marks[x as int])
}

/// The cycle-detection edges of the first `k` that join two nodes inside
/// and are not removed, as pairs.
pub open spec fn cut_pairs(
    edges: Seq<(usize, usize, Edge)>,
    reexports: Reexports,
    inside: Set<usize>,
    removed: Set<(usize, usize)>,
    k: int,
) -> Seq<(usize, usize)>
    decreases k,
{
    if k <= 0 || k > edges.len() {
        Seq::empty()
    } else if kept_for_cycles(edges[k - 1].2, reexports) && inside.contains(edges[k - 1].0) && inside.contains(
        edges[k - 1].1,
    ) && !removed.contains((edges[k - 1].0, edges[k - 1].1)) {
        cut_pairs(edges, reexports, inside, removed, k - 1).push((edges[k - 1].0, edges[k - 1].1))
    } else {
        cut_pairs(edges, reexports, inside, removed, k - 1)
    }
}

/// Whether no two different nodes among the first `n` reach each other.
pub open spec fn acyclic_among(edges: Seq<(usize, usize)>, n: nat) -> bool {
    forall|x: usize, y: usize|
        x < n && y < n && x != y ==> !(#[trigger] reaches(edges, x, y) && #[trigger] reaches(edges, y, x))
}

/// Removing one more edge that is still there drops at least one pair.
pub proof fn lemma_cut_pairs_drop(
    edges: Seq<(usize, usize, Edge)>,
    reexports: Reexports,
    inside: Set<usize>,
    removed: Set<(usize, usize)>,
    e: (usize, usize),
    k: int,
)
    requires
        0 <= k <= edges.len(),
    ensures
        cut_pairs(edges, reexports, inside, removed.insert(e), k).len() <= cut_pairs(edges, reexports, inside, removed, k).len(),
        has_edge(cut_pairs(edges, reexports, inside, removed, k), e.0, e.1) ==> cut_pairs(
            edges,
            reexports,
            inside,
            removed.insert(e),
            k,
        ).len() < cut_pairs(edges, reexports, inside, removed, k).len(),
    decreases k,
{
    if k > 0 {
        lemma_cut_pairs_drop(edges, reexports, inside, removed, e, k - 1);
        let prev = cut_pairs(edges, reexports, inside, removed, k - 1);
        let cur = cut_pairs(edges, reexports, inside, removed, k);
        if has_edge(cur, e.0, e.1) {
            let j = choose|j: int| 0 <= j < cur.len() && cur[j] == (e.0, e.1);
            if j < prev.len() {
                assert(prev[j] == cur[j]);
                assert(has_edge(prev, e.0, e.1));
            }
        }
    }
}

/// The graph of the cycle-detection edges between nodes inside that are not
/// removed. Every node stays, those outside without edges, so each node
/// keeps its index as its weight.
fn pruned_graph(g: &ArcGraph, reexports: Reexports, inside: &Vec<bool>, removed: &Vec<(usize, usize)>) -> (res: DiGraph<
    NodeIndex,
    (),
>)
    requires
        g.nodes().len() < 4294967295,
        g.edge_seq().len() < 4294967295,
        inside@.len() == g.nodes().len(),
    ensures
        node_weights(res) == Seq::new(g.nodes().len(), |i: int| i as usize),
        edge_list(res) == cut_pairs(g.edge_seq(), reexports, marked(inside@), removed@.to_set(), g.edge_seq().len() as int),
{
    let n = g.node_count();
    let m = g.edge_count();
    let mut sub = new_index_graph();
    let mut i: usize = 0;
    while i < n
        invariant
            i <= n,
            n == g.nodes().len(),
            n < 4294967295,
            node_weights(sub) == Seq::new(i as nat, |j: int| j as usize),
            edge_list(sub) == Seq::<(usize, usize)>::empty(),
        decreases n - i,
    {
        add_index_node(&mut sub, i);
        i = i + 1;
        assert(node_weights(sub) =~= Seq::new(i as nat, |j: int| j as usize));
    }
    let mut k: usize = 0;
    while k < m
        invariant
            k <= m,
            m == g.edge_seq().len(),
            m < 4294967295,
            n == g.nodes().len(),
            inside@.len() == n,
            arc_edges_within(g.edge_seq(), n as nat),
            node_weights(sub) == Seq::new(n as nat, |j: int| j as usize),
            edge_list(sub) == cut_pairs(g.edge_seq(), reexports, marked(inside@), removed@.to_set(), k as int),
            edge_list(sub).len() <= k,
        decreases m - k,
    {
        let (a, b, e) = g.edge(k);
        assert(g.edge_seq()[k as int].0 < n && g.edge_seq()[k as int].1 < n);
        let kept = e.is_production_module_dep() && (match reexports {
            Reexports::Included => true,
            Reexports::Excluded => !e.is_reexport_module_dep(),
        });
        let mut gone = false;
        let mut r: usize = 0;
        while r < removed.len()
            invariant
                r <= removed@.len(),
                gone == removed@.take(r as int).contains((a, b)),
            decreases removed.len() - r,
        {
            proof {
                let pre = removed@.take(r as int);
                let x = removed@[r as int];
                assert(removed@.take(r + 1) =~= pre.push(x));
                if pre.contains((a, b)) {
                    let w = choose|w: int| 0 <= w < pre.len() && pre[w] == (a, b);
                    assert(pre.push(x)[w] == (a, b));
                }
                if pre.push(x).contains((a, b)) && x != (a, b) {
                    let w = choose|w: int| 0 <= w < pre.len() + 1 && pre.push(x)[w] == (a, b);
                    assert(pre[w] == (a, b));
                }
                if x == (a, b) {
                    assert(pre.push(x)[pre.len() as int] == (a, b));
                }
            }
            if removed[r].0 == a && removed[r].1 == b {
                gone = true;
            }
            r = r + 1;
        }
        assert(removed@.take(removed@.len() as int) =~= removed@);
        if kept && inside[a] && inside[b] && !gone {
            add_unit_edge(&mut sub, a, b);
        }
        k = k + 1;
    }
    sub
}

/// Whether the graph has no cycle through two different nodes: every
/// strongly connected component is a single node.
fn components_trivial(g: &DiGraph<NodeIndex, ()>) -> (res: bool)
    ensures
        res == acyclic_among(edge_list(*g), node_weights(*g).len()),
{
    let comps = strongly_connected(g);
    let ghost cs = comps@.map_values(|c: Vec<usize>| c@);
    let ghost n = node_weights(*g).len();
    let ghost edges = edge_list(*g);
    let mut c: usize = 0;
    while c < comps.len()
        invariant
            c <= comps@.len(),
            cs == comps@.map_values(|c: Vec<usize>| c@),
            n == node_weights(*g).len(),
            edges == edge_list(*g),
            are_components(cs, n, edges),
            forall|d: int| 0 <= d < c ==> (#[trigger] cs[d]).len() <= 1,
        decreases comps.len() - c,
    {
        assert(cs[c as int] == comps@[c as int]@);
        if comps[c].len() > 1 {
            proof {
                let x = cs[c as int][0];
                let y = cs[c as int][1];
                assert(in_comp(cs, c as int, x) && in_comp(cs, c as int, y));
                assert(x < n && y < n);
                assert(x != y);
                assert(reaches(edges, x, y) && reaches(edges, y, x));
            }
            return false;
        }
        c = c + 1;
    }
    proof {
        assert forall|x: usize, y: usize|
            x < n && y < n && x != y implies !(#[trigger] reaches(edges, x, y) && #[trigger] reaches(edges, y, x)) by {
            if reaches(edges, x, y) && reaches(edges, y, x) {
                assert(placed(cs, x));
                let d = choose|d: int| #[trigger] in_comp(cs, d, x);
                assert(in_comp(cs, d, y));
                let i = choose|i: int| 0 <= i < cs[d].len() && cs[d][i] == x;
                let j = choose|j: int| 0 <= j < cs[d].len() && cs[d][j] == y;
                assert(i != j);
                assert(cs[d].len() <= 1);
            }
        }
    }
    true
}

/// A cycle through two different nodes has an edge between two different
/// nodes whose head leads back to its tail.
pub proof fn lemma_back_edge(edges: Seq<(usize, usize)>, x: usize, y: usize) -> (e: (usize, usize))
    requires
        x != y,
        reaches(edges, x, y),
        reaches(edges, y, x),
    ensures
        has_edge(edges, e.0, e.1),
        e.0 != e.1,
        reaches(edges, e.1, e.0),
{
    let p = choose|p: Seq<usize>| #[trigger] is_walk(edges, p) && p[0] == x && p.last() == y;
    let i = lemma_distinct_step(p);
    assert(step(edges, p, i));
    lemma_walk_split(edges, p, i);
    lemma_walk_split(edges, p, i + 1);
    lemma_reaches_trans(edges, p[i + 1], y, x);
    lemma_reaches_trans(edges, p[i + 1], x, p[i]);
    (p[i], p[i + 1])
}

/// A sequence whose ends differ has two neighbours that differ.
pub proof fn lemma_distinct_step(p: Seq<usize>) -> (i: int)
    requires
        p.len() >= 1,
        p[0] != p.last(),
    ensures
        0 <= i < p.len() - 1,
        p[i] != p[i + 1],
    decreases p.len(),
{
    if p[p.len() - 2] != p.last() {
        p.len() - 2
    } else {
        let q = p.drop_last();
        let i = lemma_distinct_step(q);
        assert(q[i] == p[i] && q[i + 1] == p[i + 1]);
        i
    }
}

/// The cycles of `list` that are kept, each once, in order of first
/// appearance.
pub open spec fn kept_cycles(list: Seq<usize>, keep: Set<usize>) -> Seq<usize>
    decreases list.len(),
{
    if list.len() == 0 {
        Seq::empty()
    } else {
        let prev = kept_cycles(list.drop_last(), keep);
        let x = list.last();
        if keep.contains(x) && !prev.contains(x) {
            prev.push(x)
        } else {
            prev
        }
    }
}

/// The candidates of the first `k` entries: each arc with the kept cycles
/// through it, where there are any.
pub open spec fn candidate_entries(entries: Seq<((usize, usize), Vec<usize>)>, keep: Set<usize>, k: int) -> Seq<
    ((usize, usize), Seq<usize>),
>
    decreases k,
{
    if k <= 0 || k > entries.len() {
        Seq::empty()
    } else {
        let prev = candidate_entries(entries, keep, k - 1);
        let here = kept_cycles(entries[k - 1].1@, keep);
        if here.len() > 0 {
            prev.push((entries[k - 1].0, here))
        } else {
            prev
        }
    }
}

/// Whether a candidate's bias, reference count and names are those of its
/// edge in the graph.
pub open spec fn profile_ok(g: ArcGraph, c: Candidate) -> bool {
    &&& bias_of(g.edge_seq(), c.edge.0, c.edge.1, c.bias)
    &&& refs_between(g.edge_seq(), c.edge.0, c.edge.1, c.refs as nat)
    &&& c.from_name@ == qualified(g.nodes(), g.edge_seq(), c.edge.0)
    &&& c.to_name@ == qualified(g.nodes(), g.edge_seq(), c.edge.1)
}

/// Whether the candidates and their cycles are those of the entries.
pub open spec fn candidates_match(
    cands: Seq<Candidate>,
    cov: Seq<Seq<usize>>,
    entries: Seq<((usize, usize), Vec<usize>)>,
    keep: Set<usize>,
) -> bool {
    let want = candidate_entries(entries, keep, entries.len() as int);
    &&& cands.len() == want.len()
    &&& cov.len() == want.len()
    &&& forall|i: int| 0 <= i < want.len() ==> (#[trigger] cands[i]).edge == want[i].0 && cov[i] == want[i].1
}

/// Whether every arc of the entries joins two of the first `n` nodes.
pub open spec fn keys_within(entries: Seq<((usize, usize), Vec<usize>)>, n: nat) -> bool {
    forall|i: int| 0 <= i < entries.len() ==> (#[trigger] entries[i]).0.0 < n && entries[i].0.1 < n
}

/// A kept cycle in the list leaves a kept cycle in the result.
pub proof fn lemma_kept_cycles_nonempty(list: Seq<usize>, keep: Set<usize>, i: int)
    requires
        0 <= i < list.len(),
        keep.contains(list[i]),
    ensures
        kept_cycles(list, keep).len() > 0,
    decreases list.len(),
{
    if i < list.len() - 1 {
        lemma_kept_cycles_nonempty(list.drop_last(), keep, i);
        lemma_kept_cycles_grow(list, keep);
    }
}

/// The kept cycles only grow as the list does.
pub proof fn lemma_kept_cycles_grow(list: Seq<usize>, keep: Set<usize>)
    requires
        list.len() > 0,
    ensures
        kept_cycles(list, keep).len() >= kept_cycles(list.drop_last(), keep).len(),
{
}

/// Each kept cycle of the result is one of the list.
pub proof fn lemma_kept_cycles_from(list: Seq<usize>, keep: Set<usize>)
    ensures
        forall|x: usize| #[trigger] kept_cycles(list, keep).contains(x) ==> list.contains(x) && keep.contains(x),
    decreases list.len(),
{
    if list.len() > 0 {
        lemma_kept_cycles_from(list.drop_last(), keep);
        let prev = kept_cycles(list.drop_last(), keep);
        assert forall|x: usize| #[trigger] kept_cycles(list, keep).contains(x) implies list.contains(x) && keep.contains(x) by {
            if prev.contains(x) {
                let j = choose|j: int| 0 <= j < list.drop_last().len() && list.drop_last()[j] == x;
                assert(list[j] == x);
            } else {
                assert(x == list.last());
                assert(list[list.len() - 1] == x);
            }
        }
    }
}

/// A candidate for an edge: its bias, reference count and end names.
fn candidate_for(g: &ArcGraph, e: (usize, usize)) -> (res: Candidate)
    requires
        e.0 < g.nodes().len(),
        e.1 < g.nodes().len(),
        containment_acyclic(g.edge_seq(), g.nodes().len()),
    ensures
        res.edge == e,
        profile_ok(*g, res),
{
    Candidate {
        edge: e,
        bias: g.cut_bias(e),
        refs: g.edge_refs(e.0, e.1),
        from_name: g.qualified_name(e.0),
        to_name: g.qualified_name(e.1),
    }
}

/// Whether `x` is among `v`.
fn has_index(v: &Vec<usize>, x: usize) -> (res: bool)
    ensures
        res == v@.contains(x),
{
    let mut i: usize = 0;
    while i < v.len()
        invariant
            i <= v@.len(),
            forall|j: int| 0 <= j < i ==> v@[j] != x,
        decreases v.len() - i,
    {
        if v[i] == x {
            assert(v@[i as int] == x);
            return true;
        }
        i = i + 1;
    }
    false
}

/// The candidates of an index of cycles by arc, keeping the cycles `keep`
/// admits (every cycle where it is `None`): one per arc with a kept cycle
/// through it, in the index's order, with those cycles, each once.
fn candidates_of(g: &ArcGraph, ec: &EdgeCycles, keep: Option<&Vec<usize>>) -> (res: (Vec<Candidate>, Vec<Vec<usize>>))
    requires
        keys_within(ec.entries@, g.nodes().len()),
        containment_acyclic(g.edge_seq(), g.nodes().len()),
    ensures
        candidates_match(res.0@, cover_view(res.1@), ec.entries@, keep_set(keep)),
        forall|i: int| 0 <= i < res.0@.len() ==> profile_ok(*g, #[trigger] res.0@[i]),
{
    let ghost ks = keep_set(keep);
    let mut cands: Vec<Candidate> = Vec::new();
    let mut cov: Vec<Vec<usize>> = Vec::new();
    let mut i: usize = 0;
    while i < ec.entries.len()
        invariant
            i <= ec.entries@.len(),
            ks == keep_set(keep),
            keys_within(ec.entries@, g.nodes().len()),
            containment_acyclic(g.edge_seq(), g.nodes().len()),
            cands@.len() == cov@.len(),
            cands@.len() == candidate_entries(ec.entries@, ks, i as int).len(),
            forall|j: int|
                0 <= j < cands@.len() ==> (#[trigger] cands@[j]).edge == candidate_entries(ec.entries@, ks, i as int)[j].0
                    && cov@[j]@ == candidate_entries(ec.entries@, ks, i as int)[j].1,
            forall|j: int| 0 <= j < cands@.len() ==> profile_ok(*g, #[trigger] cands@[j]),
        decreases ec.entries.len() - i,
    {
        let (e, list) = (ec.entries[i].0, &ec.entries[i].1);
        let mut here: Vec<usize> = Vec::new();
        let mut k: usize = 0;
        while k < list.len()
            invariant
                k <= list@.len(),
                ks == keep_set(keep),
                here@ == kept_cycles(list@.take(k as int), ks),
            decreases list.len() - k,
        {
            let x = list[k];
            let admitted = match keep {
                Some(v) => has_index(v, x),
                None => true,
            };
            let seen = has_index(&here, x);
            assert(list@.take(k + 1).drop_last() =~= list@.take(k as int));
            assert(list@.take(k + 1).last() == x);
            if admitted && !seen {
                here.push(x);
            }
            k = k + 1;
        }
        assert(list@.take(list@.len() as int) =~= list@);
        let ghost prev = candidate_entries(ec.entries@, ks, i as int);
        if here.len() > 0 {
            assert(ec.entries@[i as int].0.0 < g.nodes().len());
            let c = candidate_for(g, e);
            let ghost before_c = cands@;
            let ghost before_v = cov@;
            cands.push(c);
            cov.push(here);
            proof {
                assert(candidate_entries(ec.entries@, ks, i + 1) == prev.push((e, here@)));
                assert forall|j: int| 0 <= j < cands@.len() implies profile_ok(*g, #[trigger] cands@[j]) by {
                    if j < before_c.len() {
                        assert(cands@[j] == before_c[j]);
                    }
                }
                assert forall|j: int| 0 <= j < cands@.len() implies (#[trigger] cands@[j]).edge == candidate_entries(ec.entries@, ks, i + 1)[j].0
                    && cov@[j]@ == candidate_entries(ec.entries@, ks, i + 1)[j].1 by {
                    if j < before_c.len() {
                        assert(cands@[j] == before_c[j]);
                        assert(cov@[j] == before_v[j]);
                    }
                }
            }
        } else {
            assert(candidate_entries(ec.entries@, ks, i + 1) == prev);
        }
        i = i + 1;
    }
    proof {
        let want = candidate_entries(ec.entries@, ks, ec.entries@.len() as int);
        assert forall|j: int| 0 <= j < want.len() implies (#[trigger] cands@[j]).edge == want[j].0 && cover_view(cov@)[j] == want[j].1 by {
        }
    }
    (cands, cov)
}

/// The cycles a keep list admits: its members, or all where there is none.
pub open spec fn keep_set(keep: Option<&Vec<usize>>) -> Set<usize> {
    match keep {
        Some(v) => v@.to_set(),
        None => Set::new(|x: usize| true),
    }
}

/// A pick leaves its candidate without open cycles for good.
pub proof fn lemma_after_picks_empty(cov: Seq<Seq<usize>>, picks: Seq<usize>, k: int)
    requires
        0 <= k < picks.len(),
        forall|q: int| 0 <= q < picks.len() ==> #[trigger] picks[q] < cov.len(),
    ensures
        after_picks(cov, picks)[picks[k] as int].len() == 0,
        after_picks(cov, picks).len() == cov.len(),
    decreases picks.len(),
{
    lemma_after_picks_len(cov, picks);
    if k < picks.len() - 1 {
        let prev = picks.drop_last();
        assert(prev[k] == picks[k]);
        assert forall|q: int| 0 <= q < prev.len() implies #[trigger] prev[q] < cov.len() by {
            assert(prev[q] == picks[q]);
        }
        lemma_after_picks_empty(cov, prev, k);
        let a = after_picks(cov, prev);
        if picks.last() != picks[k] {
            assert(after_picks(cov, picks)[picks[k] as int] == minus(a[picks[k] as int], a[picks.last() as int]));
            lemma_minus_len(a[picks[k] as int], a[picks.last() as int]);
        }
    }
}

/// Picking keeps one coverage entry per candidate.
pub proof fn lemma_after_picks_len(cov: Seq<Seq<usize>>, picks: Seq<usize>)
    ensures
        after_picks(cov, picks).len() == cov.len(),
    decreases picks.len(),
{
    if picks.len() > 0 {
        lemma_after_picks_len(cov, picks.drop_last());
    }
}

/// Picking never grows a candidate's open cycles.
pub proof fn lemma_after_picks_le(cov: Seq<Seq<usize>>, picks: Seq<usize>, j: int)
    requires
        0 <= j < cov.len(),
    ensures
        after_picks(cov, picks)[j].len() <= cov[j].len(),
    decreases picks.len(),
{
    if picks.len() > 0 {
        lemma_after_picks_le(cov, picks.drop_last(), j);
        lemma_after_picks_len(cov, picks.drop_last());
        let a = after_picks(cov, picks.drop_last());
        if j != picks.last() {
            lemma_minus_len(a[j], a[picks.last() as int]);
        }
    }
}

/// Valid picks are candidates that had open cycles, each picked once.
pub proof fn lemma_picks_facts(cands: Seq<Candidate>, cov: Seq<Seq<usize>>, picks: Seq<usize>)
    requires
        picks_valid(cands, cov, picks),
    ensures
        forall|q: int| 0 <= q < picks.len() ==> #[trigger] picks[q] < cov.len(),
        forall|q: int| 0 <= q < picks.len() ==> cov[#[trigger] picks[q] as int].len() > 0,
        forall|a: int, b: int| 0 <= a < b < picks.len() ==> #[trigger] picks[a] != #[trigger] picks[b],
    decreases picks.len(),
{
    if picks.len() > 0 {
        let prev = picks.drop_last();
        lemma_picks_facts(cands, cov, prev);
        lemma_after_picks_len(cov, prev);
        let last = picks.last();
        assert(best_pick(cands, after_picks(cov, prev), last as int));
        lemma_after_picks_le(cov, prev, last as int);
        assert forall|q: int| 0 <= q < picks.len() implies #[trigger] picks[q] < cov.len() by {
            if q < prev.len() {
                assert(prev[q] == picks[q]);
            }
        }
        assert forall|q: int| 0 <= q < picks.len() implies cov[#[trigger] picks[q] as int].len() > 0 by {
            if q < prev.len() {
                assert(prev[q] == picks[q]);
            }
        }
        assert forall|a: int, b: int| 0 <= a < b < picks.len() implies #[trigger] picks[a] != #[trigger] picks[b] by {
            assert(prev[a] == picks[a]);
            if b < prev.len() {
                assert(prev[b] == picks[b]);
            } else {
                lemma_after_picks_empty(cov, prev, a);
            }
        }
    }
}

/// Each candidate stands for an entry: its arc, with that entry's kept
/// cycles.
pub proof fn lemma_candidate_entry(entries: Seq<((usize, usize), Vec<usize>)>, keep: Set<usize>, k: int, i: int) -> (t: int)
    requires
        0 <= k <= entries.len(),
        0 <= i < candidate_entries(entries, keep, k).len(),
    ensures
        0 <= t < k,
        entries[t].0 == candidate_entries(entries, keep, k)[i].0,
        kept_cycles(entries[t].1@, keep) == candidate_entries(entries, keep, k)[i].1,
        candidate_entries(entries, keep, k)[i].1.len() > 0,
    decreases k,
{
    let prev = candidate_entries(entries, keep, k - 1);
    if i < prev.len() {
        lemma_candidate_entry(entries, keep, k - 1, i)
    } else {
        k - 1
    }
}

/// Entries with distinct arcs give candidates with distinct arcs.
pub proof fn lemma_candidate_keys_distinct(entries: Seq<((usize, usize), Vec<usize>)>, keep: Set<usize>, k: int)
    requires
        0 <= k <= entries.len(),
        forall|a: int, b: int| 0 <= a < entries.len() && 0 <= b < entries.len() && a != b ==> (#[trigger] entries[a]).0 != (#[trigger] entries[b]).0,
    ensures
        forall|a: int, b: int|
            0 <= a < candidate_entries(entries, keep, k).len() && 0 <= b < candidate_entries(entries, keep, k).len() && a != b
                ==> (#[trigger] candidate_entries(entries, keep, k)[a]).0 != (#[trigger] candidate_entries(entries, keep, k)[b]).0,
    decreases k,
{
    if k > 0 {
        lemma_candidate_keys_distinct(entries, keep, k - 1);
        let prev = candidate_entries(entries, keep, k - 1);
        let cur = candidate_entries(entries, keep, k);
        assert forall|a: int, b: int| 0 <= a < cur.len() && 0 <= b < cur.len() && a != b implies (#[trigger] cur[a]).0 != (#[trigger] cur[b]).0 by {
            if a < prev.len() && b < prev.len() {
                assert(cur[a] == prev[a] && cur[b] == prev[b]);
            } else if a < prev.len() {
                let t = lemma_candidate_entry(entries, keep, k - 1, a);
                assert(cur[a] == prev[a]);
                assert(cur[b].0 == entries[k - 1].0);
            } else {
                let t = lemma_candidate_entry(entries, keep, k - 1, b);
                assert(cur[b] == prev[b]);
                assert(cur[a].0 == entries[k - 1].0);
            }
        }
    }
}

/// An arc a cycle of the graph runs through is an edge, where each node's
/// weight is its index.
pub proof fn lemma_cycle_arc_edge(w: Seq<usize>, edges: Seq<(usize, usize)>, path: Seq<usize>, e: (usize, usize))
    requires
        is_graph_cycle(w, edges, path),
        forall|i: int| 0 <= i < w.len() ==> #[trigger] w[i] == i,
        arc_set(path).contains(e),
    ensures
        has_edge(edges, e.0, e.1),
        e.0 != e.1,
        reaches(edges, e.1, e.0),
{
    let loc = choose|loc: Seq<usize>|
        #[trigger] crate::layout::cycles::is_simple_cycle(edges, loc) && (forall|i: int| 0 <= i < loc.len() ==> #[trigger] loc[i]
            < w.len()) && path == crate::layout::cycles::lift(w, loc);
    let j = choose|j: int| 0 <= j < path.len() && #[trigger] arc(path, j) == e;
    let nj = next_pos(path.len() as int, j);
    assert(cycle_step(edges, loc, j));
    assert(path[j] == w[loc[j] as int]);
    assert(path[nj] == w[loc[nj] as int]);
    assert(w[loc[j] as int] == loc[j]);
    assert(w[loc[nj] as int] == loc[nj]);
    assert(loc[j] != loc[nj]);
    crate::layout::cycles::lemma_rotated_cycle(w, edges, loc, nj);
    crate::layout::cycles::lemma_rotated(loc, nj);
    let r = crate::layout::cycles::rotated(loc, nj);
    let len = loc.len() as int;
    assert(r[0] == loc[nj]);
    assert(r[len - 1] == loc[j]);
    assert forall|k: int| 0 <= k < r.len() - 1 implies #[trigger] step(edges, r, k) by {
        assert(cycle_step(edges, r, k));
        assert(next_pos(len, k) == k + 1);
    }
    assert(is_walk(edges, r));
}

/// An edge of the pruned pairs joins two nodes inside, is not removed, and
/// is one of the graph's edges.
pub proof fn lemma_cut_pairs_member(
    edges: Seq<(usize, usize, Edge)>,
    reexports: Reexports,
    inside: Set<usize>,
    removed: Set<(usize, usize)>,
    k: int,
    a: usize,
    b: usize,
)
    requires
        0 <= k <= edges.len(),
        has_edge(cut_pairs(edges, reexports, inside, removed, k), a, b),
    ensures
        !removed.contains((a, b)),
        inside.contains(a),
        inside.contains(b),
        exists|j: int| 0 <= j < k && (#[trigger] edges[j]).0 == a && edges[j].1 == b && kept_for_cycles(edges[j].2, reexports),
    decreases k,
{
    let prev = cut_pairs(edges, reexports, inside, removed, k - 1);
    let cur = cut_pairs(edges, reexports, inside, removed, k);
    let q = choose|q: int| 0 <= q < cur.len() && cur[q] == (a, b);
    if q < prev.len() {
        assert(prev[q] == cur[q]);
        lemma_cut_pairs_member(edges, reexports, inside, removed, k - 1, a, b);
        let j = choose|j: int| 0 <= j < k - 1 && (#[trigger] edges[j]).0 == a && edges[j].1 == b && kept_for_cycles(edges[j].2, reexports);
        assert(edges[j].0 == a);
    } else {
        assert(edges[k - 1].0 == a && edges[k - 1].1 == b);
    }
}

/// Whether the entries' arcs are distinct.
pub open spec fn keys_distinct(entries: Seq<((usize, usize), Vec<usize>)>) -> bool {
    forall|a: int, b: int| 0 <= a < entries.len() && 0 <= b < entries.len() && a != b ==> (#[trigger] entries[a]).0 != (#[trigger] entries[b]).0
}

/// An entry with a kept cycle yields a candidate for its arc.
pub proof fn lemma_candidate_exists(entries: Seq<((usize, usize), Vec<usize>)>, keep: Set<usize>, k: int, t: int)
    requires
        0 <= t < k <= entries.len(),
        kept_cycles(entries[t].1@, keep).len() > 0,
    ensures
        exists|i: int| 0 <= i < candidate_entries(entries, keep, k).len() && (#[trigger] candidate_entries(entries, keep, k)[i]).1.len() > 0,
    decreases k,
{
    let prev = candidate_entries(entries, keep, k - 1);
    let cur = candidate_entries(entries, keep, k);
    if t < k - 1 {
        lemma_candidate_exists(entries, keep, k - 1, t);
        let i = choose|i: int| 0 <= i < prev.len() && (#[trigger] prev[i]).1.len() > 0;
        assert(cur[i] == prev[i]);
    } else {
        assert(cur[prev.len() as int].1.len() > 0);
    }
}


/// What one pass of the re-cover picks in a pruned graph `pg`: the greedy
/// cover of the candidates of its minimal cycles `r`, every cycle admitted,
/// each candidate profiled in `g`, the picked edges in pick order.
pub open spec fn residual_pick(
    g: ArcGraph,
    pg: DiGraph<NodeIndex, ()>,
    r: CycleAnalysis,
    cands: Seq<Candidate>,
    cov: Seq<Seq<usize>>,
    picks: Seq<usize>,
    extra: Seq<(usize, usize)>,
) -> bool {
    &&& minimal_analysis(pg, r)
    &&& candidates_match(cands, cov, r.edge_cycles.entries@, Set::new(|x: usize| true))
    &&& forall|i: int| 0 <= i < cands.len() ==> profile_ok(g, #[trigger] cands[i])
    &&& greedy_cover_of(cands, cov, picks)
    &&& extra == Seq::new(picks.len(), |k: int| cands[picks[k] as int].edge)
}

/// Whether `first` is the greedy cover of the cluster's candidates: the
/// picked edges in pick order.
pub open spec fn first_phase(g: ArcGraph, entries: Seq<((usize, usize), Vec<usize>)>, keep: Set<usize>, first: Seq<(usize, usize)>) -> bool {
    exists|cands: Seq<Candidate>, cov: Seq<Seq<usize>>, picks: Seq<usize>|
        #[trigger] greedy_cover_of(cands, cov, picks) && candidates_match(cands, cov, entries, keep) && (forall|i: int|
            0 <= i < cands.len() ==> profile_ok(g, #[trigger] cands[i])) && first == Seq::new(
            picks.len(),
            |k: int| cands[picks[k] as int].edge,
        )
}

/// Whether `extra` is one re-cover pass after the cuts `before`: the graph
/// of cycle-detection edges among `inside` with `before` taken out still
/// has a cycle, and `extra` is what [`residual_pick`] picks in it.
pub open spec fn round_ok(
    g: ArcGraph,
    reexports: Reexports,
    inside: Set<usize>,
    before: Seq<(usize, usize)>,
    extra: Seq<(usize, usize)>,
) -> bool {
    let pairs = cut_pairs(g.edge_seq(), reexports, inside, before.to_set(), g.edge_seq().len() as int);
    &&& !acyclic_among(pairs, g.nodes().len())
    &&& exists|pg: DiGraph<NodeIndex, ()>, r: CycleAnalysis, cands: Seq<Candidate>, cov: Seq<Seq<usize>>, picks: Seq<usize>|
        node_weights(pg) == Seq::new(g.nodes().len(), |i: int| i as usize) && edge_list(pg) == pairs && #[trigger] residual_pick(
            g,
            pg,
            r,
            cands,
            cov,
            picks,
            extra,
        )
}

/// The edges of a first cover and of the re-cover passes after it.
pub open spec fn cuts_of(first: Seq<(usize, usize)>, rounds: Seq<Seq<(usize, usize)>>) -> Set<(usize, usize)> {
    (first + rounds.flatten()).to_set()
}

/// Whether the cut edges are the first greedy cover followed by re-cover
/// passes, each made while a cycle was left, until none is.
pub open spec fn cut_rounds(
    g: ArcGraph,
    reexports: Reexports,
    inside: Set<usize>,
    entries: Seq<((usize, usize), Vec<usize>)>,
    keep: Set<usize>,
    cut: Set<(usize, usize)>,
) -> bool {
    exists|first: Seq<(usize, usize)>, rounds: Seq<Seq<(usize, usize)>>|
        first_phase(g, entries, keep, first) && cut == #[trigger] cuts_of(first, rounds) && forall|q: int|
            0 <= q < rounds.len() ==> round_ok(g, reexports, inside, first + rounds.take(q).flatten(), #[trigger] rounds[q])
}

/// The edges that re-cover the cycles left in a pruned graph that still has
/// one through two different nodes: the greedy picks over its minimal
/// cycles, each an edge of it, each once, at least one.
fn residual_cuts(g: &ArcGraph, pruned: &DiGraph<NodeIndex, ()>) -> (res: Vec<(usize, usize)>)
    requires
        g.nodes().len() < 4294967295,
        node_weights(*pruned) == Seq::new(g.nodes().len(), |i: int| i as usize),
        edges_within(edge_list(*pruned), g.nodes().len()),
        !acyclic_among(edge_list(*pruned), g.nodes().len()),
        containment_acyclic(g.edge_seq(), g.nodes().len()),
    ensures
        res@.len() > 0,
        res@.no_duplicates(),
        forall|i: int| 0 <= i < res@.len() ==> has_edge(edge_list(*pruned), (#[trigger] res@[i]).0, res@[i].1),
        forall|i: int|
            0 <= i < res@.len() ==> (#[trigger] res@[i]).0 != res@[i].1 && reaches(edge_list(*pruned), res@[i].1, res@[i].0),
        exists|r: CycleAnalysis, cands: Seq<Candidate>, cov: Seq<Seq<usize>>, picks: Seq<usize>|
            #[trigger] residual_pick(*g, *pruned, r, cands, cov, picks, res@),
{
    let ghost n = g.nodes().len();
    let ghost w = node_weights(*pruned);
    let ghost edges = edge_list(*pruned);
    let residual = minimal_cycles(pruned);
    let ghost cycles = paths(residual.cycles@);
    let ghost entries = residual.edge_cycles.entries@;
    let ghost all = keep_set(None);
    assert(forall|i: int| 0 <= i < w.len() ==> #[trigger] w[i] == i);
    proof {
        // Every arc the index lists is an edge of the pruned graph.
        assert forall|t: int| 0 <= t < entries.len() implies #[trigger] has_edge(edges, entries[t].0.0, entries[t].0.1)
            && entries[t].1@.len() > 0 && entries[t].0.0 != entries[t].0.1 && reaches(edges, entries[t].0.1, entries[t].0.0) by {
            let key = entries[t].0;
            assert(residual.edge_cycles.has(key));
            lemma_arc_hits(cycles, key, cycles.len() as int);
            let c = choose|c: int| 0 <= c < cycles.len() && #[trigger] arc_set(cycles[c]).contains(key);
            assert(is_graph_cycle(w, edges, residual.cycles@[c].path@));
            lemma_cycle_arc_edge(w, edges, cycles[c], key);
        }
        assert forall|t: int| 0 <= t < entries.len() implies (#[trigger] entries[t]).0.0 < n && entries[t].0.1 < n by {
            assert(has_edge(edges, entries[t].0.0, entries[t].0.1));
            let q = choose|q: int| 0 <= q < edges.len() && edges[q] == (entries[t].0.0, entries[t].0.1);
            assert(edges[q].0 < n && edges[q].1 < n);
        }
    }
    let (cands, cov) = candidates_of(g, &residual.edge_cycles, None);
    let picks = greedy_cover(&cands, &cov);
    let ghost want = candidate_entries(entries, all, entries.len() as int);
    let ghost cv = cover_view(cov@);
    proof {
        // Some candidate breaks a cycle, so the cover picks at least one.
        let (x, y) = choose|x: usize, y: usize| x < n && y < n && x != y && #[trigger] reaches(edges, x, y) && #[trigger] reaches(edges, y, x);
        let e = lemma_back_edge(edges, x, y);
        let q = choose|q: int| 0 <= q < edges.len() && edges[q] == (e.0, e.1);
        assert(edges[q].0 < n && edges[q].1 < n);
        assert(covered(cycles, w[e.0 as int], w[e.1 as int]));
        assert(w[e.0 as int] == e.0 && w[e.1 as int] == e.1);
        let c = choose|c: int| 0 <= c < cycles.len() && #[trigger] arc_set(cycles[c]).contains((e.0, e.1));
        lemma_arc_hits(cycles, e, cycles.len() as int);
        assert(residual.edge_cycles.has(e));
        let t = choose|t: int| 0 <= t < entries.len() && #[trigger] entries[t].0 == e;
        lemma_kept_cycles_nonempty(entries[t].1@, all, 0);
        lemma_candidate_exists(entries, all, entries.len() as int, t);
        let i = choose|i: int| 0 <= i < want.len() && (#[trigger] want[i]).1.len() > 0;
        assert(cands@[i].edge == want[i].0);
        assert(cv[i].len() > 0);
        if picks@.len() == 0 {
            assert(after_picks(cv, picks@) == cv);
            assert(after_picks(cv, picks@)[i].len() == 0);
        }
        lemma_picks_facts(cands@, cv, picks@);
        lemma_candidate_keys_distinct(entries, all, entries.len() as int);
    }
    let mut res: Vec<(usize, usize)> = Vec::new();
    let mut q: usize = 0;
    while q < picks.len()
        invariant
            q <= picks@.len(),
            res@ == Seq::new(q as nat, |k: int| cands@[picks@[k] as int].edge),
            forall|k: int| 0 <= k < picks@.len() ==> #[trigger] picks@[k] < cands@.len(),
            forall|a: int, b: int| 0 <= a < b < picks@.len() ==> #[trigger] picks@[a] != #[trigger] picks@[b],
            forall|a: int, b: int| 0 <= a < want.len() && 0 <= b < want.len() && a != b ==> (#[trigger] want[a]).0 != (#[trigger] want[b]).0,
            candidates_match(cands@, cv, entries, all),
        decreases picks.len() - q,
    {
        let e = cands[picks[q]].edge;
        let ghost before = res@;
        res.push(e);
        assert(res@ =~= Seq::new((q + 1) as nat, |k: int| cands@[picks@[k] as int].edge));
        q = q + 1;
    }
    proof {
        assert forall|a: int, b: int| 0 <= a < res@.len() && 0 <= b < res@.len() && a != b implies res@[a] != res@[b] by {
            assert(picks@[a] != picks@[b]);
            assert(cands@[picks@[a] as int].edge == want[picks@[a] as int].0);
            assert(cands@[picks@[b] as int].edge == want[picks@[b] as int].0);
        }
        assert forall|i: int| 0 <= i < res@.len() implies has_edge(edges, (#[trigger] res@[i]).0, res@[i].1) by {
            let p = picks@[i] as int;
            let t = lemma_candidate_entry(entries, all, entries.len() as int, p);
            assert(entries[t].0 == res@[i]);
            assert(has_edge(edges, entries[t].0.0, entries[t].0.1));
        }
        assert forall|i: int| 0 <= i < res@.len() implies (#[trigger] res@[i]).0 != res@[i].1 && reaches(edges, res@[i].1, res@[i].0) by {
            let p = picks@[i] as int;
            let t = lemma_candidate_entry(entries, all, entries.len() as int, p);
            assert(entries[t].0 == res@[i]);
            assert(has_edge(edges, entries[t].0.0, entries[t].0.1));
        }
        assert(minimal_analysis(*pruned, residual));
        assert(keep_set(None) == Set::new(|x: usize| true));
        assert(residual_pick(*g, *pruned, residual, cands@, cv, picks@, res@));
    }
    res
}

/// One edge of a cluster's cut-set.
#[derive(Clone, Copy, Debug)]
pub struct Cut {
    pub from: usize,
    pub to: usize,
    /// The cluster's cycles through this edge.
    pub breaks: usize,
    /// The reference sites on the edge.
    pub refs: usize,
}

/// The edges of cuts.
pub open spec fn cut_edges(cuts: Seq<Cut>) -> Seq<(usize, usize)> {
    cuts.map_values(|c: Cut| (c.from, c.to))
}

/// The names of a cut's ends.
pub open spec fn cut_names(g: ArcGraph, c: Cut) -> (Seq<char>, Seq<char>) {
    (qualified(g.nodes(), g.edge_seq(), c.from), qualified(g.nodes(), g.edge_seq(), c.to))
}

/// Whether cut `a` ranks before `b`: more cycles broken, then fewer
/// reference sites, then the smaller names.
pub open spec fn cut_before(g: ArcGraph, a: Cut, b: Cut) -> bool {
    a.breaks > b.breaks || (a.breaks == b.breaks && (a.refs < b.refs || (a.refs == b.refs && names_before(
        cut_names(g, a),
        cut_names(g, b),
    ))))
}

/// Ranking cuts is a strict order.
pub proof fn lemma_cut_before_order(g: ArcGraph, a: Cut, b: Cut, c: Cut)
    ensures
        !cut_before(g, a, a),
        cut_before(g, a, b) && cut_before(g, b, c) ==> cut_before(g, a, c),
{
    lemma_outranks_order(
        Rank { count: 0, bias: 0, refs: 0, names: cut_names(g, a) },
        Rank { count: 0, bias: 0, refs: 0, names: cut_names(g, b) },
        Rank { count: 0, bias: 0, refs: 0, names: cut_names(g, c) },
    );
}

/// The cycles of the candidate for `e` among `want`, counted; zero where
/// there is none.
pub open spec fn gross_of(want: Seq<((usize, usize), Seq<usize>)>, e: (usize, usize)) -> nat {
    if exists|i: int| 0 <= i < want.len() && (#[trigger] want[i]).0 == e {
        want[choose|i: int| 0 <= i < want.len() && (#[trigger] want[i]).0 == e].1.len()
    } else {
        0
    }
}

/// Whether `e` is a cycle-detection edge between two nodes of `inside`.
pub open spec fn inner_cycle_edge(
    edges: Seq<(usize, usize, Edge)>,
    reexports: Reexports,
    inside: Set<usize>,
    e: (usize, usize),
) -> bool {
    &&& inside.contains(e.0)
    &&& inside.contains(e.1)
    &&& exists|j: int|
        0 <= j < edges.len() && (#[trigger] edges[j]).0 == e.0 && edges[j].1 == e.1 && kept_for_cycles(
            edges[j].2,
            reexports,
        )
}

/// The edges the greedy cover picks.
pub open spec fn pick_set(cands: Seq<Candidate>, picks: Seq<usize>) -> Set<(usize, usize)> {
    Set::new(|e: (usize, usize)| exists|q: int| 0 <= q < picks.len() && cands[picks[q] as int].edge == e)
}

/// Whether `e` still lies on a cycle once the edges `removed` are gone: an
/// edge between two different nodes of `inside` whose target reaches back
/// to its source.
pub open spec fn on_residual_cycle(
    edges: Seq<(usize, usize, Edge)>,
    reexports: Reexports,
    inside: Set<usize>,
    removed: Set<(usize, usize)>,
    e: (usize, usize),
) -> bool {
    let pairs = cut_pairs(edges, reexports, inside, removed, edges.len() as int);
    &&& e.0 != e.1
    &&& has_edge(pairs, e.0, e.1)
    &&& reaches(pairs, e.1, e.0)
}

/// Removing more edges keeps no edge the fewer removals dropped.
pub proof fn lemma_cut_pairs_mono(
    edges: Seq<(usize, usize, Edge)>,
    reexports: Reexports,
    inside: Set<usize>,
    r1: Set<(usize, usize)>,
    r2: Set<(usize, usize)>,
    k: int,
)
    requires
        0 <= k <= edges.len(),
        r1.subset_of(r2),
    ensures
        forall|a: usize, b: usize|
            #[trigger] has_edge(cut_pairs(edges, reexports, inside, r2, k), a, b) ==> has_edge(
                cut_pairs(edges, reexports, inside, r1, k),
                a,
                b,
            ),
    decreases k,
{
    if k > 0 {
        lemma_cut_pairs_mono(edges, reexports, inside, r1, r2, k - 1);
        let p1 = cut_pairs(edges, reexports, inside, r1, k);
        let p2 = cut_pairs(edges, reexports, inside, r2, k);
        let q1 = cut_pairs(edges, reexports, inside, r1, k - 1);
        let q2 = cut_pairs(edges, reexports, inside, r2, k - 1);
        assert forall|a: usize, b: usize| #[trigger] has_edge(p2, a, b) implies has_edge(p1, a, b) by {
            let t = choose|t: int| 0 <= t < p2.len() && p2[t] == (a, b);
            if t < q2.len() {
                assert(q2[t] == (a, b));
                assert(has_edge(q2, a, b));
                let u = choose|u: int| 0 <= u < q1.len() && q1[u] == (a, b);
                if p1.len() > q1.len() {
                    assert(p1[u] == q1[u]);
                } else {
                    assert(p1 == q1);
                }
            } else {
                let e = edges[k - 1];
                assert((a, b) == (e.0, e.1));
                assert(!r1.contains((e.0, e.1)));
                assert(p1[p1.len() - 1] == (a, b));
            }
        }
    }
}

/// A walk along the edges of a graph with more edges removed is a walk of
/// the graph with fewer removed.
pub proof fn lemma_reaches_mono(
    edges: Seq<(usize, usize, Edge)>,
    reexports: Reexports,
    inside: Set<usize>,
    r1: Set<(usize, usize)>,
    r2: Set<(usize, usize)>,
    a: usize,
    b: usize,
)
    requires
        r1.subset_of(r2),
        reaches(cut_pairs(edges, reexports, inside, r2, edges.len() as int), a, b),
    ensures
        reaches(cut_pairs(edges, reexports, inside, r1, edges.len() as int), a, b),
{
    let p1 = cut_pairs(edges, reexports, inside, r1, edges.len() as int);
    let p2 = cut_pairs(edges, reexports, inside, r2, edges.len() as int);
    lemma_cut_pairs_mono(edges, reexports, inside, r1, r2, edges.len() as int);
    let w = choose|w: Seq<usize>| #[trigger] is_walk(p2, w) && w[0] == a && w.last() == b;
    assert forall|i: int| 0 <= i < w.len() - 1 implies #[trigger] step(p1, w, i) by {
        assert(step(p2, w, i));
    }
    assert(is_walk(p1, w));
}

/// Whether `e` is one of the greedy picks among the candidates, or a
/// cycle-detection edge between two nodes of `inside` that still lies on a
/// cycle once the picks are removed.
pub open spec fn picked_or_inner(
    cands: Seq<Candidate>,
    picks: Seq<usize>,
    edges: Seq<(usize, usize, Edge)>,
    reexports: Reexports,
    inside: Set<usize>,
    e: (usize, usize),
) -> bool {
    (exists|q: int| 0 <= q < picks.len() && cands[picks[q] as int].edge == e) || (inner_cycle_edge(
        edges,
        reexports,
        inside,
        e,
    ) && on_residual_cycle(edges, reexports, inside, pick_set(cands, picks), e))
}

/// Whether the cut edges are a greedy cover of the candidates of the
/// entries and, beyond its picks, cycle-detection edges between two nodes of
/// `inside` only.
pub open spec fn covers_initial(
    g: ArcGraph,
    reexports: Reexports,
    inside: Set<usize>,
    entries: Seq<((usize, usize), Vec<usize>)>,
    keep: Set<usize>,
    cut: Set<(usize, usize)>,
) -> bool {
    exists|cands: Seq<Candidate>, cov: Seq<Seq<usize>>, picks: Seq<usize>|
        #[trigger] greedy_cover_of(cands, cov, picks) && candidates_match(cands, cov, entries, keep) && (forall|i: int|
            0 <= i < cands.len() ==> profile_ok(g, #[trigger] cands[i])) && (forall|q: int|
            0 <= q < picks.len() ==> cut.contains(#[trigger] cands[picks[q] as int].edge)) && (forall|e: (usize, usize)|
            #[trigger] cut.contains(e) ==> picked_or_inner(cands, picks, g.edge_seq(), reexports, inside, e))
}

/// Whether cut `a` ranks before `b`.
fn cut_before_exec(g: &ArcGraph, a: &Cut, b: &Cut) -> (res: bool)
    requires
        a.from < g.nodes().len(),
        a.to < g.nodes().len(),
        b.from < g.nodes().len(),
        b.to < g.nodes().len(),
        containment_acyclic(g.edge_seq(), g.nodes().len()),
    ensures
        res == cut_before(*g, *a, *b),
{
    if a.breaks != b.breaks {
        return a.breaks > b.breaks;
    }
    if a.refs != b.refs {
        return a.refs < b.refs;
    }
    let af = chars_of(g.qualified_name(a.from).as_str());
    let bf = chars_of(g.qualified_name(b.from).as_str());
    if less_than(&af, &bf) {
        return true;
    }
    if less_than(&bf, &af) {
        return false;
    }
    proof {
        crate::sorting::lemma_less_total(af@, bf@);
    }
    let at = chars_of(g.qualified_name(a.to).as_str());
    let bt = chars_of(g.qualified_name(b.to).as_str());
    less_than(&at, &bt)
}

/// Sort cuts best first, keeping the order of equals: each goes before the
/// first it ranks before.
fn sort_cuts(g: &ArcGraph, cuts: &Vec<Cut>) -> (res: Vec<Cut>)
    requires
        forall|i: int| 0 <= i < cuts@.len() ==> (#[trigger] cuts@[i]).from < g.nodes().len() && cuts@[i].to < g.nodes().len(),
        containment_acyclic(g.edge_seq(), g.nodes().len()),
    ensures
        res@.to_multiset() == cuts@.to_multiset(),
        forall|i: int, j: int| 0 <= i < j < res@.len() ==> !cut_before(*g, #[trigger] res@[j], #[trigger] res@[i]),
{
    let mut res: Vec<Cut> = Vec::new();
    let mut t: usize = 0;
    assert(res@ =~= cuts@.take(0));
    while t < cuts.len()
        invariant
            t <= cuts@.len(),
            forall|i: int| 0 <= i < cuts@.len() ==> (#[trigger] cuts@[i]).from < g.nodes().len() && cuts@[i].to < g.nodes().len(),
            containment_acyclic(g.edge_seq(), g.nodes().len()),
            res@.to_multiset() == cuts@.take(t as int).to_multiset(),
            forall|i: int| 0 <= i < res@.len() ==> (#[trigger] res@[i]).from < g.nodes().len() && res@[i].to < g.nodes().len(),
            forall|i: int, j: int| 0 <= i < j < res@.len() ==> !cut_before(*g, #[trigger] res@[j], #[trigger] res@[i]),
        decreases cuts.len() - t,
    {
        let c = cuts[t];
        let mut p: usize = 0;
        while p < res.len() && !cut_before_exec(g, &c, &res[p])
            invariant
                p <= res@.len(),
                c.from < g.nodes().len() && c.to < g.nodes().len(),
                containment_acyclic(g.edge_seq(), g.nodes().len()),
                forall|i: int| 0 <= i < res@.len() ==> (#[trigger] res@[i]).from < g.nodes().len() && res@[i].to < g.nodes().len(),
                forall|q: int| 0 <= q < p ==> !cut_before(*g, c, #[trigger] res@[q]),
            decreases res.len() - p,
        {
            p = p + 1;
        }
        let ghost old_res = res@;
        res.insert(p, c);
        proof {
            assert(res@ == old_res.insert(p as int, c));
            vstd::seq_lib::to_multiset_insert(old_res, p as int, c);
            assert(cuts@.take(t + 1) =~= cuts@.take(t as int).push(c));
            vstd::seq_lib::to_multiset_build(cuts@.take(t as int), c);
            assert forall|i: int, j: int| 0 <= i < j < res@.len() implies !cut_before(*g, #[trigger] res@[j], #[trigger] res@[i]) by {
                if j < p {
                    assert(res@[i] == old_res[i] && res@[j] == old_res[j]);
                } else if j == p {
                    assert(res@[i] == old_res[i]);
                } else if i < p {
                    assert(res@[i] == old_res[i] && res@[j] == old_res[j - 1]);
                } else if i == p {
                    assert(res@[j] == old_res[j - 1]);
                    assert(cut_before(*g, c, old_res[p as int]));
                    lemma_cut_before_order(*g, old_res[j - 1], c, old_res[p as int]);
                    lemma_cut_before_order(*g, old_res[p as int], c, old_res[p as int]);
                } else {
                    assert(res@[i] == old_res[i - 1] && res@[j] == old_res[j - 1]);
                }
            }
        }
        t = t + 1;
    }
    assert(cuts@.take(cuts@.len() as int) =~= cuts@);
    res
}

/// Two lists of the same cuts, the second with distinct edges, have the
/// same edges, the first distinct too.
pub proof fn lemma_same_cuts(a: Seq<Cut>, b: Seq<Cut>)
    requires
        a.to_multiset() == b.to_multiset(),
        cut_edges(b).no_duplicates(),
    ensures
        cut_edges(a).to_set() == cut_edges(b).to_set(),
        cut_edges(a).no_duplicates(),
        forall|c: Cut| #[trigger] a.contains(c) ==> b.contains(c),
{
    broadcast use vstd::seq_lib::group_seq_properties;
    assert forall|c: Cut| a.contains(c) <==> b.contains(c) by {
        vstd::seq_lib::to_multiset_contains(a, c);
        vstd::seq_lib::to_multiset_contains(b, c);
    }
    assert forall|x: (usize, usize)| cut_edges(a).to_set().contains(x) <==> cut_edges(b).to_set().contains(x) by {
        if cut_edges(a).to_set().contains(x) {
            let i = choose|i: int| 0 <= i < cut_edges(a).len() && cut_edges(a)[i] == x;
            assert(a.contains(a[i]));
            let j = choose|j: int| 0 <= j < b.len() && b[j] == a[i];
            assert(cut_edges(b)[j] == x);
        }
        if cut_edges(b).to_set().contains(x) {
            let j = choose|j: int| 0 <= j < cut_edges(b).len() && cut_edges(b)[j] == x;
            assert(b.contains(b[j]));
            let i = choose|i: int| 0 <= i < a.len() && a[i] == b[j];
            assert(cut_edges(a)[i] == x);
        }
    }
    assert(cut_edges(a).to_set() =~= cut_edges(b).to_set());
    assert(b.no_duplicates()) by {
        assert forall|i: int, j: int| 0 <= i < b.len() && 0 <= j < b.len() && i != j implies b[i] != b[j] by {
            assert(cut_edges(b)[i] != cut_edges(b)[j]);
        }
    }
    b.lemma_multiset_has_no_duplicates();
    a.lemma_multiset_has_no_duplicates_conv();
    assert forall|i: int, j: int| 0 <= i < a.len() && 0 <= j < a.len() && i != j implies cut_edges(a)[i] != cut_edges(a)[j] by {
        if cut_edges(a)[i] == cut_edges(a)[j] {
            assert(a.contains(a[i]) && a.contains(a[j]));
            let p = choose|p: int| 0 <= p < b.len() && b[p] == a[i];
            let q = choose|q: int| 0 <= q < b.len() && b[q] == a[j];
            assert(cut_edges(b)[p] == cut_edges(b)[q]);
            assert(p == q);
        }
    }
}

/// One mark per node, set for the nodes listed.
fn marks_of(n: usize, nodes: &Vec<usize>) -> (res: Vec<bool>)
    requires
        forall|i: int| 0 <= i < nodes@.len() ==> #[trigger] nodes@[i] < n,
    ensures
        res@.len() == n,
        marked(res@) == nodes@.to_set(),
{
    let mut res: Vec<bool> = Vec::new();
    let mut i: usize = 0;
    while i < n
        invariant
            i <= n,
            res@.len() == i,
            forall|j: int| 0 <= j < i ==> !(#[trigger] res@[j]),
        decreases n - i,
    {
        res.push(false);
        i = i + 1;
    }
    let mut k: usize = 0;
    while k < nodes.len()
        invariant
            k <= nodes@.len(),
            res@.len() == n,
            forall|i: int| 0 <= i < nodes@.len() ==> #[trigger] nodes@[i] < n,
            forall|x: usize| x < n ==> (res@[x as int] <==> nodes@.take(k as int).contains(x)),
        decreases nodes.len() - k,
    {
        let x = nodes[k];
        res.set(x, true);
        proof {
            assert(nodes@.take(k + 1) =~= nodes@.take(k as int).push(x));
            let s0 = nodes@.take(k as int);
            let s1 = nodes@.take(k + 1);
            assert forall|y: usize| y < n implies (res@[y as int] <==> s1.contains(y)) by {
                if s0.contains(y) {
                    let w = choose|w: int| 0 <= w < s0.len() && s0[w] == y;
                    assert(s1[w] == y);
                }
                if s1.contains(y) && y != x {
                    let w = choose|w: int| 0 <= w < s1.len() && s1[w] == y;
                    assert(s0[w] == y);
                }
                if y == x {
                    assert(s1[k as int] == y);
                }
            }
        }
        k = k + 1;
    }
    assert(nodes@.take(nodes@.len() as int) =~= nodes@);
    assert forall|x: usize| marked(res@).contains(x) <==> nodes@.to_set().contains(x) by {
        if nodes@.to_set().contains(x) {
            let w = choose|w: int| 0 <= w < nodes@.len() && nodes@[w] == x;
            assert(x < n);
        }
    }
    assert(marked(res@) =~= nodes@.to_set());
    res
}

/// The cycles of the candidate for `e`, counted; zero where there is none.
fn gross_lookup(
    cands: &Vec<Candidate>,
    cov: &Vec<Vec<usize>>,
    e: (usize, usize),
    Ghost(entries): Ghost<Seq<((usize, usize), Vec<usize>)>>,
    Ghost(keep): Ghost<Set<usize>>,
) -> (res: usize)
    requires
        candidates_match(cands@, cover_view(cov@), entries, keep),
        forall|a: int, b: int|
            0 <= a < candidate_entries(entries, keep, entries.len() as int).len() && 0 <= b < candidate_entries(entries, keep, entries.len() as int).len() && a != b
                ==> (#[trigger] candidate_entries(entries, keep, entries.len() as int)[a]).0 != (#[trigger] candidate_entries(
                entries,
                keep,
                entries.len() as int,
            )[b]).0,
    ensures
        res == gross_of(candidate_entries(entries, keep, entries.len() as int), e),
{
    let ghost want = candidate_entries(entries, keep, entries.len() as int);
    let mut i: usize = 0;
    while i < cands.len()
        invariant
            i <= cands@.len(),
            candidates_match(cands@, cover_view(cov@), entries, keep),
            want == candidate_entries(entries, keep, entries.len() as int),
            forall|a: int, b: int| 0 <= a < want.len() && 0 <= b < want.len() && a != b ==> (#[trigger] want[a]).0 != (#[trigger] want[b]).0,
            forall|j: int| 0 <= j < i ==> (#[trigger] want[j]).0 != e,
        decreases cands.len() - i,
    {
        assert(cands@[i as int].edge == want[i as int].0);
        if cands[i].edge.0 == e.0 && cands[i].edge.1 == e.1 {
            proof {
                assert(cover_view(cov@)[i as int] == cov@[i as int]@);
                let c = choose|c: int| 0 <= c < want.len() && (#[trigger] want[c]).0 == e;
                assert(want[i as int].0 == e);
                assert(c == i);
            }
            return cov[i].len();
        }
        i = i + 1;
    }
    0
}

/// What a cluster's cut-set promises: removing its edges leaves no cycle
/// through two of the cluster's nodes among the cycle-detection edges; its
/// edges are distinct and hold a greedy cover of the cluster's cycles; each
/// cut carries the cluster's cycles through it and its reference sites;
/// and the cuts come best first.
#[verifier::opaque]
pub open spec fn cut_set_ok(
    g: ArcGraph,
    reexports: Reexports,
    nodes: Seq<usize>,
    cycle_idxs: Seq<usize>,
    analysis: CycleAnalysis,
    cuts: Seq<Cut>,
) -> bool {
    let entries = analysis.edge_cycles.entries@;
    &&& acyclic_among(
        cut_pairs(g.edge_seq(), reexports, nodes.to_set(), cut_edges(cuts).to_set(), g.edge_seq().len() as int),
        g.nodes().len(),
    )
    &&& cut_edges(cuts).no_duplicates()
    &&& covers_initial(g, reexports, nodes.to_set(), entries, cycle_idxs.to_set(), cut_edges(cuts).to_set())
    &&& cut_rounds(g, reexports, nodes.to_set(), entries, cycle_idxs.to_set(), cut_edges(cuts).to_set())
    &&& forall|i: int|
        0 <= i < cuts.len() ==> (#[trigger] cuts[i]).breaks == gross_of(
            candidate_entries(entries, cycle_idxs.to_set(), entries.len() as int),
            (cuts[i].from, cuts[i].to),
        ) && refs_between(g.edge_seq(), cuts[i].from, cuts[i].to, cuts[i].refs as nat)
    &&& forall|i: int, j: int| 0 <= i < j < cuts.len() ==> !cut_before(g, #[trigger] cuts[j], #[trigger] cuts[i])
}

impl ArcGraph {
    /// A cut-set for one cluster: edges whose removal leaves no cycle among
    /// the cluster's nodes in the graph of cycle-detection edges. The
    /// greedy cover of the cluster's cycles comes first; while the pruned
    /// cluster still has a strongly connected component of two nodes or
    /// more, the greedy cover of its own minimal cycles is added. Each cut
    /// carries the cluster's cycles through it and its reference sites,
    /// and the cuts come best first.
    pub fn cluster_cut_set(
        &self,
        reexports: Reexports,
        nodes: &Vec<usize>,
        cycle_idxs: &Vec<usize>,
        analysis: &CycleAnalysis,
    ) -> (res: Vec<Cut>)
        requires
            self.nodes().len() < 4294967295,
            self.edge_seq().len() < 4294967295,
            containment_acyclic(self.edge_seq(), self.nodes().len()),
            forall|i: int| 0 <= i < nodes@.len() ==> #[trigger] nodes@[i] < self.nodes().len(),
            keys_within(analysis.edge_cycles.entries@, self.nodes().len()),
            keys_distinct(analysis.edge_cycles.entries@),
        ensures
            cut_set_ok(*self, reexports, nodes@, cycle_idxs@, *analysis, res@),
    {
        let n = self.node_count();
        let m = self.edge_count();
        let ghost edges = self.edge_seq();
        let ghost entries = analysis.edge_cycles.entries@;
        let ghost keep = cycle_idxs@.to_set();
        let ghost want = candidate_entries(entries, keep, entries.len() as int);
        let inside = marks_of(n, nodes);
        let (cands, cov) = candidates_of(self, &analysis.edge_cycles, Some(cycle_idxs));
        let picks = greedy_cover(&cands, &cov);
        let ghost cv = cover_view(cov@);
        proof {
            lemma_picks_facts(cands@, cv, picks@);
            lemma_candidate_keys_distinct(entries, keep, entries.len() as int);
            assert forall|i: int| 0 <= i < want.len() implies (#[trigger] want[i]).0.0 < n && want[i].0.1 < n by {
                let t = lemma_candidate_entry(entries, keep, entries.len() as int, i);
            }
        }
        let mut chosen: Vec<(usize, usize)> = Vec::new();
        let mut q: usize = 0;
        while q < picks.len()
            invariant
                q <= picks@.len(),
                chosen@ == Seq::new(q as nat, |k: int| cands@[picks@[k] as int].edge),
                forall|k: int| 0 <= k < picks@.len() ==> #[trigger] picks@[k] < cands@.len(),
            decreases picks.len() - q,
        {
            chosen.push(cands[picks[q]].edge);
            assert(chosen@ =~= Seq::new((q + 1) as nat, |k: int| cands@[picks@[k] as int].edge));
            q = q + 1;
        }
        proof {
            assert forall|k: int| 0 <= k < chosen@.len() implies picked_or_inner(
                cands@,
                picks@,
                edges,
                reexports,
                nodes@.to_set(),
                #[trigger] chosen@[k],
            ) by {
                assert(cands@[picks@[k] as int].edge == chosen@[k]);
            }
            assert forall|a: int, b: int| 0 <= a < chosen@.len() && 0 <= b < chosen@.len() && a != b implies chosen@[a] != chosen@[b] by {
                assert(picks@[a] != picks@[b]);
                assert(cands@[picks@[a] as int].edge == want[picks@[a] as int].0);
                assert(cands@[picks@[b] as int].edge == want[picks@[b] as int].0);
            }
            assert forall|i: int| 0 <= i < chosen@.len() implies (#[trigger] chosen@[i]).0 < n && chosen@[i].1 < n by {
                assert(cands@[picks@[i] as int].edge == want[picks@[i] as int].0);
            }
            assert forall|k: int| 0 <= k < picks@.len() implies chosen@.contains(#[trigger] cands@[picks@[k] as int].edge) by {
                assert(chosen@[k] == cands@[picks@[k] as int].edge);
            }
            assert(keep_set(Some(cycle_idxs)) == keep);
            assert(first_phase(*self, entries, keep, chosen@));
        }
        let ghost first = chosen@;
        let ghost mut rounds: Seq<Seq<(usize, usize)>> = Seq::empty();
        assert(chosen@ =~= first + rounds.flatten());
        loop
            invariant
                first_phase(*self, entries, keep, first),
                chosen@ == first + rounds.flatten(),
                forall|q: int|
                    0 <= q < rounds.len() ==> round_ok(
                        *self,
                        reexports,
                        nodes@.to_set(),
                        first + rounds.take(q).flatten(),
                        #[trigger] rounds[q],
                    ),
                n == self.nodes().len(),
                m == edges.len(),
                edges == self.edge_seq(),
                n < 4294967295,
                m < 4294967295,
                inside@.len() == n,
                marked(inside@) == nodes@.to_set(),
                containment_acyclic(edges, n as nat),
                arc_edges_within(edges, n as nat),
                chosen@.no_duplicates(),
                forall|i: int| 0 <= i < chosen@.len() ==> (#[trigger] chosen@[i]).0 < n && chosen@[i].1 < n,
                forall|k: int| 0 <= k < picks@.len() ==> chosen@.contains(#[trigger] cands@[picks@[k] as int].edge),
                forall|k: int| 0 <= k < chosen@.len() ==> picked_or_inner(
                    cands@,
                    picks@,
                    edges,
                    reexports,
                    nodes@.to_set(),
                    #[trigger] chosen@[k],
                ),
            ensures
                acyclic_among(cut_pairs(edges, reexports, nodes@.to_set(), chosen@.to_set(), m as int), n as nat),
            decreases cut_pairs(edges, reexports, nodes@.to_set(), chosen@.to_set(), m as int).len(),
        {
            let pruned = pruned_graph(self, reexports, &inside, &chosen);
            if components_trivial(&pruned) {
                break;
            }
            let ghost pairs = edge_list(pruned);
            let ghost start = chosen@;
            proof {
                assert forall|k: int| 0 <= k < pairs.len() implies (#[trigger] pairs[k]).0 < n && pairs[k].1 < n by {
                    assert(has_edge(pairs, pairs[k].0, pairs[k].1));
                    lemma_cut_pairs_member(edges, reexports, nodes@.to_set(), chosen@.to_set(), m as int, pairs[k].0, pairs[k].1);
                }
            }
            let extra = residual_cuts(self, &pruned);
            let mut r: usize = 0;
            while r < extra.len()
                invariant
                    r <= extra@.len(),
                    n == self.nodes().len(),
                    m == edges.len(),
                    arc_edges_within(edges, n as nat),
                    pairs == cut_pairs(edges, reexports, nodes@.to_set(), start.to_set(), m as int),
                    extra@.no_duplicates(),
                    forall|i: int| 0 <= i < extra@.len() ==> has_edge(pairs, (#[trigger] extra@[i]).0, extra@[i].1),
                    forall|i: int|
                        0 <= i < extra@.len() ==> (#[trigger] extra@[i]).0 != extra@[i].1 && reaches(pairs, extra@[i].1, extra@[i].0),
                    forall|k: int| 0 <= k < picks@.len() ==> start.contains(#[trigger] cands@[picks@[k] as int].edge),
                    chosen@ == start + extra@.take(r as int),
                    chosen@.no_duplicates(),
                    forall|i: int| 0 <= i < chosen@.len() ==> (#[trigger] chosen@[i]).0 < n && chosen@[i].1 < n,
                    cut_pairs(edges, reexports, nodes@.to_set(), chosen@.to_set(), m as int).len() <= pairs.len(),
                    r > 0 ==> cut_pairs(edges, reexports, nodes@.to_set(), chosen@.to_set(), m as int).len() < pairs.len(),
                    forall|k: int| 0 <= k < chosen@.len() ==> picked_or_inner(
                        cands@,
                        picks@,
                        edges,
                        reexports,
                        nodes@.to_set(),
                        #[trigger] chosen@[k],
                    ),
                decreases extra.len() - r,
            {
                let e = extra[r];
                proof {
                    assert(has_edge(pairs, e.0, e.1));
                    lemma_cut_pairs_member(edges, reexports, nodes@.to_set(), start.to_set(), m as int, e.0, e.1);
                    let j = choose|j: int| 0 <= j < m && (#[trigger] edges[j]).0 == e.0 && edges[j].1 == e.1;
                    assert(edges[j].0 < n && edges[j].1 < n);
                    assert(!chosen@.contains(e)) by {
                        if chosen@.contains(e) {
                            let w = choose|w: int| 0 <= w < chosen@.len() && chosen@[w] == e;
                            if w < start.len() {
                                assert(start[w] == e);
                                assert(start.to_set().contains(e));
                            } else {
                                assert(extra@[w - start.len()] == e);
                                assert(extra@[r as int] == e);
                            }
                        }
                    }
                    lemma_cut_pairs_drop(edges, reexports, nodes@.to_set(), chosen@.to_set(), e, m as int);
                    if r == 0 {
                        assert(chosen@ =~= start);
                    }
                    chosen@.lemma_push_to_set_commute(e);
                }
                let ghost before = chosen@;
                chosen.push(e);
                proof {
                    assert(chosen@ =~= start + extra@.take(r + 1));
                    assert forall|a: int, b: int| 0 <= a < chosen@.len() && 0 <= b < chosen@.len() && a != b implies chosen@[a] != chosen@[b] by {
                        if a < before.len() && b < before.len() {
                            assert(chosen@[a] == before[a] && chosen@[b] == before[b]);
                        } else if a < before.len() {
                            assert(before.contains(before[a]));
                        } else {
                            assert(before.contains(before[b]));
                        }
                    }
                    assert forall|k: int| 0 <= k < chosen@.len() implies (#[trigger] chosen@[k]).0 < n && chosen@[k].1 < n by {
                        if k < before.len() {
                            assert(chosen@[k] == before[k]);
                        }
                    }
                    assert(inner_cycle_edge(edges, reexports, nodes@.to_set(), e));
                    assert(pick_set(cands@, picks@).subset_of(start.to_set())) by {
                        assert forall|x: (usize, usize)| pick_set(cands@, picks@).contains(x) implies start.to_set().contains(x) by {
                            let q = choose|q: int| 0 <= q < picks@.len() && cands@[picks@[q] as int].edge == x;
                            assert(start.contains(cands@[picks@[q] as int].edge));
                        }
                    }
                    lemma_cut_pairs_mono(edges, reexports, nodes@.to_set(), pick_set(cands@, picks@), start.to_set(), m as int);
                    lemma_reaches_mono(edges, reexports, nodes@.to_set(), pick_set(cands@, picks@), start.to_set(), e.1, e.0);
                    assert(on_residual_cycle(edges, reexports, nodes@.to_set(), pick_set(cands@, picks@), e));
                    assert forall|k: int| 0 <= k < chosen@.len() implies picked_or_inner(
                        cands@,
                        picks@,
                        edges,
                        reexports,
                        nodes@.to_set(),
                        #[trigger] chosen@[k],
                    ) by {
                        if k < before.len() {
                            assert(chosen@[k] == before[k]);
                        }
                    }
                }
                r = r + 1;
            }
            proof {
                assert forall|k: int| 0 <= k < picks@.len() implies chosen@.contains(#[trigger] cands@[picks@[k] as int].edge) by {
                    let w = choose|w: int| 0 <= w < start.len() && start[w] == cands@[picks@[k] as int].edge;
                    assert(chosen@[w] == start[w]);
                }
                let old_rounds = rounds;
                assert(extra@.take(extra@.len() as int) =~= extra@);
                assert(start == first + old_rounds.flatten());
                assert(round_ok(*self, reexports, nodes@.to_set(), start, extra@));
                rounds = old_rounds.push(extra@);
                old_rounds.lemma_flatten_push(extra@);
                assert(chosen@ =~= first + rounds.flatten());
                assert forall|q: int|
                    0 <= q < rounds.len() implies round_ok(
                        *self,
                        reexports,
                        nodes@.to_set(),
                        first + rounds.take(q).flatten(),
                        #[trigger] rounds[q],
                    ) by {
                    if q < old_rounds.len() {
                        assert(rounds.take(q) =~= old_rounds.take(q));
                        assert(rounds[q] == old_rounds[q]);
                    } else {
                        assert(rounds.take(q) =~= old_rounds);
                    }
                }
            }
        }
        proof {
            assert(cuts_of(first, rounds) == chosen@.to_set());
            assert(cut_rounds(*self, reexports, nodes@.to_set(), entries, keep, chosen@.to_set()));
        }
        let mut cuts: Vec<Cut> = Vec::new();
        let mut i: usize = 0;
        while i < chosen.len()
            invariant
                i <= chosen@.len(),
                n == self.nodes().len(),
                candidates_match(cands@, cover_view(cov@), entries, keep),
                want == candidate_entries(entries, keep, entries.len() as int),
                forall|a: int, b: int| 0 <= a < want.len() && 0 <= b < want.len() && a != b ==> (#[trigger] want[a]).0 != (#[trigger] want[b]).0,
                cut_edges(cuts@) == chosen@.take(i as int),
                forall|k: int| 0 <= k < chosen@.len() ==> (#[trigger] chosen@[k]).0 < n && chosen@[k].1 < n,
                forall|k: int|
                    0 <= k < cuts@.len() ==> (#[trigger] cuts@[k]).breaks == gross_of(want, (cuts@[k].from, cuts@[k].to)) && refs_between(
                        self.edge_seq(),
                        cuts@[k].from,
                        cuts@[k].to,
                        cuts@[k].refs as nat,
                    ),
            decreases chosen.len() - i,
        {
            let (from, to) = chosen[i];
            let breaks = gross_lookup(&cands, &cov, (from, to), Ghost(entries), Ghost(keep));
            let refs = self.edge_refs(from, to);
            let ghost before = cuts@;
            cuts.push(Cut { from, to, breaks, refs });
            proof {
                assert(cut_edges(cuts@) =~= cut_edges(before).push((from, to)));
                assert(chosen@.take(i + 1) =~= chosen@.take(i as int).push(chosen@[i as int]));
                assert(cut_edges(cuts@) =~= chosen@.take(i + 1));
                assert forall|k: int|
                    0 <= k < cuts@.len() implies (#[trigger] cuts@[k]).breaks == gross_of(want, (cuts@[k].from, cuts@[k].to)) && refs_between(
                        self.edge_seq(),
                        cuts@[k].from,
                        cuts@[k].to,
                        cuts@[k].refs as nat,
                    ) by {
                    if k < before.len() {
                        assert(cuts@[k] == before[k]);
                    }
                }
            }
            i = i + 1;
        }
        proof {
            assert(chosen@.take(chosen@.len() as int) =~= chosen@);
            assert forall|k: int| 0 <= k < cuts@.len() implies (#[trigger] cuts@[k]).from < n && cuts@[k].to < n by {
                assert(cut_edges(cuts@)[k] == chosen@[k]);
            }
        }
        let res = sort_cuts(self, &cuts);
        proof {
            lemma_same_cuts(res@, cuts@);
            assert forall|k: int|
                0 <= k < res@.len() implies (#[trigger] res@[k]).breaks == gross_of(want, (res@[k].from, res@[k].to)) && refs_between(
                    self.edge_seq(),
                    res@[k].from,
                    res@[k].to,
                    res@[k].refs as nat,
                ) by {
                assert(res@.contains(res@[k]));
                let j = choose|j: int| 0 <= j < cuts@.len() && cuts@[j] == res@[k];
            }
            assert(greedy_cover_of(cands@, cv, picks@));
            assert forall|q: int| 0 <= q < picks@.len() implies cut_edges(res@).to_set().contains(#[trigger] cands@[picks@[q] as int].edge) by {
                assert(chosen@.contains(cands@[picks@[q] as int].edge));
                assert(cut_edges(cuts@).to_set().contains(cands@[picks@[q] as int].edge));
            }
            assert forall|e: (usize, usize)| #[trigger] cut_edges(res@).to_set().contains(e) implies picked_or_inner(
                cands@,
                picks@,
                edges,
                reexports,
                nodes@.to_set(),
                e,
            ) by {
                assert(cut_edges(cuts@).to_set().contains(e));
                assert(cut_edges(cuts@) == chosen@);
                let w = choose|w: int| 0 <= w < chosen@.len() && chosen@[w] == e;
            }
            reveal(cut_set_ok);
        }
        res
    }
}

/// One strongly connected cluster of mutually cyclic modules.
pub struct Cluster {
    /// The crate that owns the first node.
    pub crate_idx: usize,
    /// The component's nodes.
    pub nodes: Vec<usize>,
    /// The cycles of the analysis that start in the cluster, by index.
    pub cycles: Vec<usize>,
    /// Edges whose removal breaks every cycle in the cluster, best first.
    pub cuts: Vec<Cut>,
}

/// Every cyclic cluster, fewest cuts first.
pub struct ClusterReport {
    pub clusters: Vec<Cluster>,
}

/// The indices of the first `k` cycles that start at one of `inside`.
pub open spec fn cycles_in(cycles: Seq<Seq<usize>>, inside: Seq<usize>, k: int) -> Seq<usize>
    decreases k,
{
    if k <= 0 || k > cycles.len() {
        Seq::empty()
    } else if cycles[k - 1].len() > 0 && inside.contains(cycles[k - 1][0]) {
        cycles_in(cycles, inside, k - 1).push((k - 1) as usize)
    } else {
        cycles_in(cycles, inside, k - 1)
    }
}

/// The smallest of the nodes, zero for none.
pub open spec fn min_of(s: Seq<usize>) -> usize
    decreases s.len(),
{
    if s.len() == 0 {
        0
    } else if s.len() == 1 {
        s[0]
    } else if s.last() < min_of(s.drop_last()) {
        s.last()
    } else {
        min_of(s.drop_last())
    }
}

/// The order of clusters: fewer cuts, then fewer cycles, then fewer nodes,
/// then the smaller least node.
pub open spec fn cluster_key(c: Cluster) -> (nat, nat, nat, usize) {
    (c.cuts@.len(), c.cycles@.len(), c.nodes@.len(), min_of(c.nodes@))
}

/// Whether one key sorts before another.
pub open spec fn key_before(a: (nat, nat, nat, usize), b: (nat, nat, nat, usize)) -> bool {
    a.0 < b.0 || (a.0 == b.0 && (a.1 < b.1 || (a.1 == b.1 && (a.2 < b.2 || (a.2 == b.2 && a.3 < b.3)))))
}

/// The crate a node belongs to: a module's crate, else the node itself.
pub open spec fn owner_of(g: ArcGraph, idx: usize) -> usize {
    match g.nodes()[idx as int] {
        Node::Module { crate_idx, .. } => crate_idx,
        _ => idx,
    }
}

/// Whether `c` is the cluster of a strongly connected component of more
/// than one node: its nodes are the component's, its cycles those that
/// start in it (at least one), its crate that of its first node, and its
/// cuts a cut-set for it.
#[verifier::opaque]
pub open spec fn cluster_ok(g: ArcGraph, reexports: Reexports, analysis: CycleAnalysis, comps: Seq<Seq<usize>>, c: Cluster) -> bool {
    let cycles = crate::layout::cycles::paths(analysis.cycles@);
    &&& exists|k: int| 0 <= k < comps.len() && #[trigger] comps[k] == c.nodes@ && comps[k].len() > 1
    &&& c.cycles@ == cycles_in(cycles, c.nodes@, cycles.len() as int)
    &&& c.cycles@.len() > 0
    &&& c.crate_idx == owner_of(g, c.nodes@[0])
    &&& cut_set_ok(g, reexports, c.nodes@, c.cycles@, analysis, c.cuts@)
}

/// The smallest of the nodes, zero for none.
fn min_node(nodes: &Vec<usize>) -> (res: usize)
    ensures
        res == min_of(nodes@),
{
    if nodes.len() == 0 {
        return 0;
    }
    let mut best = nodes[0];
    let mut i: usize = 1;
    assert(nodes@.take(1).drop_last().len() == 0);
    assert(min_of(nodes@.take(1)) == nodes@[0]);
    while i < nodes.len()
        invariant
            1 <= i <= nodes@.len(),
            best == min_of(nodes@.take(i as int)),
        decreases nodes.len() - i,
    {
        assert(nodes@.take(i + 1).drop_last() =~= nodes@.take(i as int));
        if nodes[i] < best {
            best = nodes[i];
        }
        i = i + 1;
    }
    assert(nodes@.take(nodes@.len() as int) =~= nodes@);
    best
}

/// Whether cluster `a` sorts before `b`.
fn cluster_before(a: &Cluster, b: &Cluster) -> (res: bool)
    ensures
        res == key_before(cluster_key(*a), cluster_key(*b)),
{
    if a.cuts.len() != b.cuts.len() {
        return a.cuts.len() < b.cuts.len();
    }
    if a.cycles.len() != b.cycles.len() {
        return a.cycles.len() < b.cycles.len();
    }
    if a.nodes.len() != b.nodes.len() {
        return a.nodes.len() < b.nodes.len();
    }
    min_node(&a.nodes) < min_node(&b.nodes)
}

/// Sort clusters by their key, keeping the order of equals: each goes
/// before the first it sorts before.
fn sort_clusters(clusters: Vec<Cluster>) -> (res: Vec<Cluster>)
    ensures
        res@.to_multiset() == clusters@.to_multiset(),
        forall|i: int, j: int| 0 <= i < j < res@.len() ==> !key_before(cluster_key(#[trigger] res@[j]), cluster_key(#[trigger] res@[i])),
{
    broadcast use vstd::multiset::group_multiset_axioms;
    let ghost all = clusters@;
    let mut rest = clusters;
    let mut res: Vec<Cluster> = Vec::new();
    assert(res@.to_multiset() =~= vstd::multiset::Multiset::<Cluster>::empty()) by {
        res@.to_multiset_ensures();
    }
    while rest.len() > 0
        invariant
            res@.to_multiset().add(rest@.to_multiset()) == all.to_multiset(),
            forall|i: int, j: int| 0 <= i < j < res@.len() ==> !key_before(cluster_key(#[trigger] res@[j]), cluster_key(#[trigger] res@[i])),
        decreases rest.len(),
    {
        let ghost old_rest = rest@;
        let c = rest.remove(0);
        proof {
            vstd::seq_lib::to_multiset_remove(old_rest, 0);
        }
        let mut p: usize = 0;
        while p < res.len() && !cluster_before(&c, &res[p])
            invariant
                p <= res@.len(),
                forall|q: int| 0 <= q < p ==> !key_before(cluster_key(c), cluster_key(#[trigger] res@[q])),
            decreases res.len() - p,
        {
            p = p + 1;
        }
        let ghost old_res = res@;
        res.insert(p, c);
        proof {
            vstd::seq_lib::to_multiset_insert(old_res, p as int, c);
            assert(old_rest.contains(old_rest[0]));
            vstd::seq_lib::to_multiset_contains(old_rest, c);
            assert(rest@.to_multiset() == old_rest.to_multiset().remove(c));
            assert(res@.to_multiset() == old_res.to_multiset().insert(c));
            assert forall|x: Cluster| #[trigger] res@.to_multiset().add(rest@.to_multiset()).count(x) == all.to_multiset().count(x) by {
                assert(old_res.to_multiset().add(old_rest.to_multiset()).count(x) == all.to_multiset().count(x));
            }
            assert(res@.to_multiset().add(rest@.to_multiset()) =~= all.to_multiset());
            assert forall|i: int, j: int| 0 <= i < j < res@.len() implies !key_before(cluster_key(#[trigger] res@[j]), cluster_key(#[trigger] res@[i])) by {
                if j < p {
                    assert(res@[i] == old_res[i] && res@[j] == old_res[j]);
                } else if j == p {
                    assert(res@[i] == old_res[i]);
                } else if i < p {
                    assert(res@[i] == old_res[i] && res@[j] == old_res[j - 1]);
                } else if i == p {
                    assert(res@[j] == old_res[j - 1]);
                    assert(key_before(cluster_key(c), cluster_key(old_res[p as int])));
                    assert(!key_before(cluster_key(old_res[j - 1]), cluster_key(old_res[p as int])) || j - 1 == p);
                } else {
                    assert(res@[i] == old_res[i - 1] && res@[j] == old_res[j - 1]);
                }
            }
        }
    }
    assert(rest@.to_multiset() =~= vstd::multiset::Multiset::<Cluster>::empty()) by {
        rest@.to_multiset_ensures();
    }
    res
}

/// How cycle detection treats re-exports for a flag.
pub open spec fn reexports_of(include_reexports: bool) -> Reexports {
    if include_reexports {
        Reexports::Included
    } else {
        Reexports::Excluded
    }
}

/// What a report holds of a listing `comps` of the strongly connected
/// components of the cycle-detection graph: every cluster is sound, and every
/// component of more than one node that some cycle starts in has its cluster.
pub open spec fn report_over(
    g: ArcGraph,
    reexports: Reexports,
    analysis: CycleAnalysis,
    comps: Seq<Seq<usize>>,
    clusters: Seq<Cluster>,
) -> bool {
    &&& forall|i: int| 0 <= i < clusters.len() ==> cluster_ok(g, reexports, analysis, comps, #[trigger] clusters[i])
    &&& forall|k: int|
        0 <= k < comps.len() && (#[trigger] comps[k]).len() > 1 && cycles_in(
            crate::layout::cycles::paths(analysis.cycles@),
            comps[k],
            analysis.cycles@.len() as int,
        ).len() > 0 ==> exists|i: int| 0 <= i < clusters.len() && (#[trigger] clusters[i]).nodes@ == comps[k]
}

/// The indices of the cycles that start at one of `nodes`.
fn cycles_starting_in(analysis: &CycleAnalysis, nodes: &Vec<usize>) -> (res: Vec<usize>)
    requires
        forall|k: int| 0 <= k < analysis.cycles@.len() ==> (#[trigger] analysis.cycles@[k]).path@.len() > 0,
    ensures
        res@ == cycles_in(crate::layout::cycles::paths(analysis.cycles@), nodes@, analysis.cycles@.len() as int),
{
    let ghost cycles = crate::layout::cycles::paths(analysis.cycles@);
    let mut res: Vec<usize> = Vec::new();
    let mut k: usize = 0;
    while k < analysis.cycles.len()
        invariant
            k <= analysis.cycles@.len(),
            cycles == crate::layout::cycles::paths(analysis.cycles@),
            forall|q: int| 0 <= q < analysis.cycles@.len() ==> (#[trigger] analysis.cycles@[q]).path@.len() > 0,
            res@ == cycles_in(cycles, nodes@, k as int),
        decreases analysis.cycles.len() - k,
    {
        assert(cycles[k as int] == analysis.cycles@[k as int].path@);
        let first = analysis.cycles[k].path[0];
        if has_index(nodes, first) {
            res.push(k);
        }
        k = k + 1;
    }
    res
}

/// Whether two node lists share no node.
pub open spec fn nodes_disjoint(a: Seq<usize>, b: Seq<usize>) -> bool {
    forall|x: usize| !(a.contains(x) && b.contains(x))
}

/// Whether no two clusters of the list share a node.
pub open spec fn clusters_disjoint(cs: Seq<Cluster>) -> bool {
    forall|i: int, j: int|
        0 <= i < cs.len() && 0 <= j < cs.len() && i != j ==> nodes_disjoint(#[trigger] cs[i].nodes@, #[trigger] cs[j].nodes@)
}

/// Reordering clusters that share no node, each with a node, keeps them
/// sharing none.
pub proof fn lemma_disjoint_perm(a: Seq<Cluster>, b: Seq<Cluster>)
    requires
        a.to_multiset() == b.to_multiset(),
        clusters_disjoint(b),
        forall|i: int| 0 <= i < b.len() ==> (#[trigger] b[i]).nodes@.len() > 0,
    ensures
        clusters_disjoint(a),
{
    assert(b.no_duplicates()) by {
        assert forall|i: int, j: int| 0 <= i < b.len() && 0 <= j < b.len() && i != j implies b[i] != b[j] by {
            assert(nodes_disjoint(b[i].nodes@, b[j].nodes@));
            assert(b[i].nodes@.contains(b[i].nodes@[0]));
        }
    }
    b.lemma_multiset_has_no_duplicates();
    a.lemma_multiset_has_no_duplicates_conv();
    assert forall|i: int, j: int|
        0 <= i < a.len() && 0 <= j < a.len() && i != j implies nodes_disjoint(#[trigger] a[i].nodes@, #[trigger] a[j].nodes@) by {
        assert(a.contains(a[i]) && a.contains(a[j]));
        lemma_same_members(a, b, a[i]);
        lemma_same_members(a, b, a[j]);
        let p = choose|p: int| 0 <= p < b.len() && b[p] == a[i];
        let q = choose|q: int| 0 <= q < b.len() && b[q] == a[j];
        assert(a[i] != a[j]);
        assert(p != q);
        assert(nodes_disjoint(b[p].nodes@, b[q].nodes@));
    }
}

/// What one list holds, a list of the same elements holds.
pub proof fn lemma_same_members<T>(a: Seq<T>, b: Seq<T>, x: T)
    requires
        a.to_multiset() == b.to_multiset(),
        a.contains(x),
    ensures
        exists|j: int| 0 <= j < b.len() && b[j] == x,
{
    vstd::seq_lib::to_multiset_contains(a, x);
    vstd::seq_lib::to_multiset_contains(b, x);
}

impl ArcGraph {
    /// The cluster of one strongly connected component: none where it has a
    /// single node or no cycle starts in it.
    fn cluster_of(&self, reexports: Reexports, comp: &Vec<usize>, analysis: &CycleAnalysis) -> (res: Option<Cluster>)
        requires
            self.nodes().len() < 4294967295,
            self.edge_seq().len() < 4294967295,
            containment_acyclic(self.edge_seq(), self.nodes().len()),
            keys_within(analysis.edge_cycles.entries@, self.nodes().len()),
            keys_distinct(analysis.edge_cycles.entries@),
            forall|k: int| 0 <= k < analysis.cycles@.len() ==> (#[trigger] analysis.cycles@[k]).path@.len() > 0,
            forall|i: int| 0 <= i < comp@.len() ==> #[trigger] comp@[i] < self.nodes().len(),
        ensures
            match res {
                Some(cl) => {
                    &&& cl.nodes@ == comp@
                    &&& comp@.len() > 1
                    &&& cl.cycles@ == cycles_in(crate::layout::cycles::paths(analysis.cycles@), comp@, analysis.cycles@.len() as int)
                    &&& cl.cycles@.len() > 0
                    &&& cl.crate_idx == owner_of(*self, comp@[0])
                    &&& cut_set_ok(*self, reexports, cl.nodes@, cl.cycles@, *analysis, cl.cuts@)
                },
                None => comp@.len() <= 1 || cycles_in(
                    crate::layout::cycles::paths(analysis.cycles@),
                    comp@,
                    analysis.cycles@.len() as int,
                ).len() == 0,
            },
    {
        if comp.len() <= 1 {
            return None;
        }
        let nodes = comp.clone();
        let cycles = cycles_starting_in(analysis, &nodes);
        if cycles.len() == 0 {
            return None;
        }
        let cuts = self.cluster_cut_set(reexports, &nodes, &cycles, analysis);
        let crate_idx = self.owning_crate(nodes[0]);
        Some(Cluster { crate_idx, nodes, cycles, cuts })
    }

    /// Group the cycles of `analysis` into clusters, one per strongly
    /// connected component of two nodes or more among the cycle-detection
    /// edges that has a cycle starting in it, each with a cut-set; the
    /// clusters come fewest cuts first, then fewest cycles, fewest nodes and
    /// smallest node. `analysis` is meant to be the minimal cycles of the
    /// same cycle-detection graph, so that its indices address this graph.
    pub fn cluster_report(&self, analysis: &CycleAnalysis, include_reexports: bool) -> (res: ClusterReport)
        requires
            self.nodes().len() < 4294967295,
            self.edge_seq().len() < 4294967295,
            containment_acyclic(self.edge_seq(), self.nodes().len()),
            keys_within(analysis.edge_cycles.entries@, self.nodes().len()),
            keys_distinct(analysis.edge_cycles.entries@),
            forall|k: int| 0 <= k < analysis.cycles@.len() ==> (#[trigger] analysis.cycles@[k]).path@.len() > 0,
        ensures
            exists|comps: Seq<Seq<usize>>|
                #[trigger] are_components(
                    comps,
                    self.nodes().len(),
                    cycle_pairs(self.edge_seq(), reexports_of(include_reexports), self.edge_seq().len() as int),
                ) && report_over(*self, reexports_of(include_reexports), *analysis, comps, res.clusters@),
            clusters_disjoint(res.clusters@),
            forall|i: int, j: int|
                0 <= i < j < res.clusters@.len() ==> !key_before(
                    cluster_key(#[trigger] res.clusters@[j]),
                    cluster_key(#[trigger] res.clusters@[i]),
                ),
    {
        let reexports = Reexports::from(include_reexports);
        let sub = self.production_subgraph(reexports);
        let comps = strongly_connected(&sub);
        let ghost cs = comps@.map_values(|c: Vec<usize>| c@);
        let ghost want = cs;
        let ghost n = self.nodes().len();
        let ghost paths = crate::layout::cycles::paths(analysis.cycles@);
        assert(node_weights(sub).len() == n);
        let mut list: Vec<Cluster> = Vec::new();
        let mut c: usize = 0;
        while c < comps.len()
            invariant
                c <= comps@.len(),
                cs == comps@.map_values(|c: Vec<usize>| c@),
                cs == want,
                reexports == reexports_of(include_reexports),
                n == self.nodes().len(),
                n < 4294967295,
                self.edge_seq().len() < 4294967295,
                containment_acyclic(self.edge_seq(), n),
                keys_within(analysis.edge_cycles.entries@, n),
                keys_distinct(analysis.edge_cycles.entries@),
                forall|k: int| 0 <= k < analysis.cycles@.len() ==> (#[trigger] analysis.cycles@[k]).path@.len() > 0,
                paths == crate::layout::cycles::paths(analysis.cycles@),
                forall|d: int, i: int| 0 <= d < cs.len() && 0 <= i < cs[d].len() ==> #[trigger] cs[d][i] < n,
                forall|i: int| 0 <= i < list@.len() ==> cluster_ok(*self, reexports, *analysis, want, #[trigger] list@[i]),
                forall|i: int| 0 <= i < list@.len() ==> exists|k: int| 0 <= k < c && #[trigger] cs[k] == (#[trigger] list@[i]).nodes@,
                clusters_disjoint(list@),
                forall|c1: int, c2: int, a: usize| #[trigger] in_comp(cs, c1, a) && #[trigger] in_comp(cs, c2, a) ==> c1 == c2,
                forall|k: int|
                    0 <= k < c && (#[trigger] cs[k]).len() > 1 && cycles_in(paths, cs[k], paths.len() as int).len() > 0
                        ==> exists|i: int| 0 <= i < list@.len() && (#[trigger] list@[i]).nodes@ == cs[k],
            decreases comps.len() - c,
        {
            assert(cs[c as int] == comps@[c as int]@);
            assert forall|i: int| 0 <= i < comps@[c as int]@.len() implies #[trigger] comps@[c as int]@[i] < self.nodes().len() by {
                assert(cs[c as int][i] < n);
            }
            match self.cluster_of(reexports, &comps[c], analysis) {
                Some(cluster) => {
                    let ghost before = list@;
                    list.push(cluster);
                    proof {
                        assert(cluster_ok(*self, reexports, *analysis, want, cluster)) by {
                            reveal(cluster_ok);
                            assert(want[c as int] == cluster.nodes@);
                        }
                        assert forall|i: int| 0 <= i < list@.len() implies cluster_ok(*self, reexports, *analysis, want, #[trigger] list@[i]) by {
                            if i < before.len() {
                                assert(list@[i] == before[i]);
                            }
                        }
                        assert(cs[c as int] == cluster.nodes@);
                        assert forall|i: int| 0 <= i < list@.len() implies exists|k: int| 0 <= k < c + 1 && #[trigger] cs[k] == (#[trigger] list@[i]).nodes@ by {
                            if i < before.len() {
                                assert(list@[i] == before[i]);
                                let k = choose|k: int| 0 <= k < c && #[trigger] cs[k] == (#[trigger] before[i]).nodes@;
                            } else {
                                assert(list@[i] == cluster);
                            }
                        }
                        assert forall|i: int, j: int|
                            0 <= i < list@.len() && 0 <= j < list@.len() && i != j implies nodes_disjoint(#[trigger] list@[i].nodes@, #[trigger] list@[j].nodes@) by {
                            if i < before.len() && j < before.len() {
                                assert(list@[i] == before[i] && list@[j] == before[j]);
                            } else {
                                let o = if i < before.len() { i } else { j };
                                assert(list@[o] == before[o]);
                                let k = choose|k: int| 0 <= k < c && #[trigger] cs[k] == (#[trigger] before[o]).nodes@;
                                assert forall|x: usize| !(before[o].nodes@.contains(x) && cluster.nodes@.contains(x)) by {
                                    if before[o].nodes@.contains(x) && cluster.nodes@.contains(x) {
                                        assert(in_comp(cs, k, x) && in_comp(cs, c as int, x));
                                    }
                                }
                            }
                        }
                        assert forall|k: int|
                            0 <= k < c + 1 && (#[trigger] cs[k]).len() > 1 && cycles_in(paths, cs[k], paths.len() as int).len() > 0
                                implies exists|i: int| 0 <= i < list@.len() && (#[trigger] list@[i]).nodes@ == cs[k] by {
                            if k < c {
                                let i = choose|i: int| 0 <= i < before.len() && (#[trigger] before[i]).nodes@ == cs[k];
                                assert(list@[i] == before[i]);
                            } else {
                                assert(list@[before.len() as int] == cluster);
                            }
                        }
                    }
                },
                None => {},
            }
            c = c + 1;
        }
        let clusters = sort_clusters(list);
        proof {
            assert forall|i: int| 0 <= i < list@.len() implies (#[trigger] list@[i]).nodes@.len() > 0 by {
                assert(cluster_ok(*self, reexports, *analysis, want, list@[i]));
                reveal(cluster_ok);
            }
            lemma_disjoint_perm(clusters@, list@);
            assert forall|i: int| 0 <= i < clusters@.len() implies cluster_ok(*self, reexports, *analysis, want, #[trigger] clusters@[i]) by {
                lemma_same_members(clusters@, list@, clusters@[i]);
                let j = choose|j: int| 0 <= j < list@.len() && list@[j] == clusters@[i];
            }
            assert forall|k: int|
                0 <= k < want.len() && (#[trigger] want[k]).len() > 1 && cycles_in(paths, want[k], paths.len() as int).len() > 0
                    implies exists|i: int| 0 <= i < clusters@.len() && (#[trigger] clusters@[i]).nodes@ == want[k] by {
                assert(cs[k] == want[k]);
                let j = choose|j: int| 0 <= j < list@.len() && (#[trigger] list@[j]).nodes@ == cs[k];
                lemma_same_members(list@, clusters@, list@[j]);
                let i = choose|i: int| 0 <= i < clusters@.len() && clusters@[i] == list@[j];
            }
            assert(paths.len() == analysis.cycles@.len());
            assert(are_components(
                want,
                self.nodes().len(),
                cycle_pairs(self.edge_seq(), reexports_of(include_reexports), self.edge_seq().len() as int),
            ));
            assert(report_over(*self, reexports_of(include_reexports), *analysis, want, clusters@));
        }
        let res = ClusterReport { clusters };
        assert(res.clusters@ == clusters@);
        res
    }
}


/// Whether a cycle analysis can be reported over the first `n` nodes: every
/// arc of its index joins two of them, no arc is indexed twice, and no cycle
/// is empty.
pub open spec fn analysis_fits(analysis: CycleAnalysis, n: nat) -> bool {
    &&& keys_within(analysis.edge_cycles.entries@, n)
    &&& keys_distinct(analysis.edge_cycles.entries@)
    &&& forall|k: int| 0 <= k < analysis.cycles@.len() ==> (#[trigger] analysis.cycles@[k]).path@.len() > 0
}

/// Check [`analysis_fits`].
pub fn check_analysis(analysis: &CycleAnalysis, n: usize) -> (res: bool)
    ensures
        res == analysis_fits(*analysis, n as nat),
{
    let entries = &analysis.edge_cycles.entries;
    let mut i: usize = 0;
    while i < entries.len()
        invariant
            i <= entries@.len(),
            entries@ == analysis.edge_cycles.entries@,
            forall|a: int| 0 <= a < i ==> (#[trigger] entries@[a]).0.0 < n && entries@[a].0.1 < n,
            forall|a: int, b: int| 0 <= a < i && 0 <= b < i && a != b ==> (#[trigger] entries@[a]).0 != (#[trigger] entries@[b]).0,
        decreases entries.len() - i,
    {
        let key = entries[i].0;
        if key.0 >= n || key.1 >= n {
            assert(!keys_within(entries@, n as nat)) by {
                if keys_within(entries@, n as nat) {
                    assert(entries@[i as int].0.0 < n && entries@[i as int].0.1 < n);
                }
            }
            return false;
        }
        let mut j: usize = 0;
        while j < i
            invariant
                i < entries@.len(),
                entries@ == analysis.edge_cycles.entries@,
                j <= i,
                key == entries@[i as int].0,
                forall|b: int| 0 <= b < j ==> (#[trigger] entries@[b]).0 != key,
            decreases i - j,
        {
            let other = entries[j].0;
            if other.0 == key.0 && other.1 == key.1 {
                assert(entries@[j as int].0 == entries@[i as int].0);
                assert(!keys_distinct(entries@)) by {
                    if keys_distinct(entries@) {
                        assert(entries@[j as int].0 != entries@[i as int].0);
                    }
                }
                return false;
            }
            j = j + 1;
        }
        i = i + 1;
    }
    let cycles = &analysis.cycles;
    let mut k: usize = 0;
    while k < cycles.len()
        invariant
            k <= cycles@.len(),
            cycles@ == analysis.cycles@,
            forall|q: int| 0 <= q < k ==> (#[trigger] cycles@[q]).path@.len() > 0,
        decreases cycles.len() - k,
    {
        if cycles[k].path.len() == 0 {
            assert(cycles@[k as int].path@.len() == 0);
            return false;
        }
        k = k + 1;
    }
    true
}

impl ArcGraph {
    /// The cluster report where what it needs holds: the graph within
    /// petgraph's `u32` indices, containment without a cycle, and an
    /// analysis that [`analysis_fits`] the graph; `None` else.
    pub fn checked_cluster_report(&self, analysis: &CycleAnalysis, include_reexports: bool) -> (res: Option<ClusterReport>)
        ensures
            res is Some <==> (self.nodes().len() < 4294967295 && self.edge_seq().len() < 4294967295 && containment_acyclic(
                self.edge_seq(),
                self.nodes().len(),
            ) && analysis_fits(*analysis, self.nodes().len())),
            res matches Some(r) ==> {
                &&& exists|comps: Seq<Seq<usize>>|
                    #[trigger] are_components(
                        comps,
                        self.nodes().len(),
                        cycle_pairs(self.edge_seq(), reexports_of(include_reexports), self.edge_seq().len() as int),
                    ) && report_over(*self, reexports_of(include_reexports), *analysis, comps, r.clusters@)
                &&& clusters_disjoint(r.clusters@)
                &&& forall|i: int, j: int|
                    0 <= i < j < r.clusters@.len() ==> !key_before(
                        cluster_key(#[trigger] r.clusters@[j]),
                        cluster_key(#[trigger] r.clusters@[i]),
                    )
            },
    {
        let n = self.node_count();
        let m = self.edge_count();
        if n >= 4294967295 || m >= 4294967295 {
            return None;
        }
        if !self.containment_is_acyclic() {
            return None;
        }
        if !check_analysis(analysis, n) {
            return None;
        }
        Some(self.cluster_report(analysis, include_reexports))
    }
}

} // verus!
