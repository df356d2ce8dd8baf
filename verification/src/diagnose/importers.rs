//! Which modules import each symbol of a provider: production module
//! dependencies inverted into a per-provider index, and a provider's
//! symbols grouped by the exact set of modules that import them, each group
//! with how close its consumers sit to each other in the module tree.

use vstd::prelude::*;

use crate::digraph::reaches;
use crate::graph::{
    arc_edges_within, chain_of, containment_acyclic, contains_pairs, edge_is_production_module_dep, first_common, ArcGraph,
    Edge, SourceLocation,
};
use crate::collections::str_eq;
use crate::sorting::{increasing, insert_line, insert_sorted, seq_less, strictly_sorted};

verus! {

/// How close a symbol's consumers sit to each other in the module tree. The
/// node in each variant is the deepest module still enclosing all consumers
/// (their common home).
#[derive(Clone, Copy, Debug, PartialEq, Eq)]
pub enum ConsumerLocality<N> {
    /// Exactly one consumer; the node is that consumer.
    SingleConsumer(N),
    /// All consumers share a common module ancestor (the node), the provider
    /// outside it.
    CommonAncestor(N),
    /// Spread across the crate, no common module below the crate root.
    CrateWide,
}

/// Whether a location that is not a re-export names `s`.
pub open spec fn names_symbol(l: SourceLocation, s: Seq<char>) -> bool {
    !l.via_reexport && exists|q: int| 0 <= q < l.symbols@.len() && (#[trigger] l.symbols@[q])@ == s
}

/// Whether an edge is a production module dependency that names `s` at a
/// location that is not a re-export.
pub open spec fn edge_names(e: Edge, s: Seq<char>) -> bool {
    edge_is_production_module_dep(e) && match e {
        Edge::ModuleDep { locations, .. } => exists|l: int|
            0 <= l < locations@.len() && #[trigger] names_symbol(locations@[l], s),
        _ => false,
    }
}

/// A production module dependency with a location naming `s` names it.
pub proof fn lemma_edge_names(e: Edge, locations: Vec<SourceLocation>, j: int, s: Seq<char>)
    requires
        edge_is_production_module_dep(e),
        e matches Edge::ModuleDep { locations: ls, .. } && ls == locations,
        0 <= j < locations@.len(),
        names_symbol(locations@[j], s),
    ensures
        edge_names(e, s),
{
    match e {
        Edge::ModuleDep { locations: ls, .. } => {
            assert(ls@[j] == locations@[j]);
        },
        _ => {},
    }
}

/// Whether module `c` imports symbol `s` of module `p`.
pub open spec fn imports_symbol(edges: Seq<(usize, usize, Edge)>, c: usize, p: usize, s: Seq<char>) -> bool {
    exists|k: int| 0 <= k < edges.len() && (#[trigger] edges[k]).0 == c && edges[k].1 == p && edge_names(edges[k].2, s)
}

/// Whether `(p, c, s)` is among the uses.
pub open spec fn listed(uses: Seq<(usize, usize, String)>, p: usize, c: usize, s: Seq<char>) -> bool {
    exists|i: int| 0 <= i < uses.len() && (#[trigger] uses[i]).0 == p && uses[i].1 == c && uses[i].2@ == s
}

/// What a prefix lists, the whole lists.
pub proof fn lemma_listed_grow(a: Seq<(usize, usize, String)>, b: Seq<(usize, usize, String)>)
    requires
        a.len() <= b.len(),
        forall|i: int| 0 <= i < a.len() ==> #[trigger] b[i] == a[i],
    ensures
        forall|p: usize, c: usize, s: Seq<char>| #[trigger] listed(a, p, c, s) ==> listed(b, p, c, s),
{
    assert forall|p: usize, c: usize, s: Seq<char>| #[trigger] listed(a, p, c, s) implies listed(b, p, c, s) by {
        let i = choose|i: int| 0 <= i < a.len() && (#[trigger] a[i]).0 == p && a[i].1 == c && a[i].2@ == s;
        assert(b[i] == a[i]);
    }
}

impl ArcGraph {
    /// Every `(provider, consumer, symbol)` a production module dependency
    /// names at a location that is not a re-export.
    fn symbol_uses(&self) -> (res: Vec<(usize, usize, String)>)
        ensures
            forall|i: int| 0 <= i < res@.len() ==> imports_symbol(self.edge_seq(), (#[trigger] res@[i]).1, res@[i].0, res@[i].2@),
            forall|p: usize, c: usize, s: Seq<char>| #[trigger] imports_symbol(self.edge_seq(), c, p, s) ==> listed(res@, p, c, s),
    {
        let ghost edges = self.edge_seq();
        let m = self.edge_count();
        let mut res: Vec<(usize, usize, String)> = Vec::new();
        let mut k: usize = 0;
        while k < m
            invariant
                k <= m,
                m == edges.len(),
                edges == self.edge_seq(),
                forall|i: int| 0 <= i < res@.len() ==> imports_symbol(edges, (#[trigger] res@[i]).1, res@[i].0, res@[i].2@),
                forall|j: int, s: Seq<char>| 0 <= j < k && #[trigger] edge_names(edges[j].2, s) ==> listed(res@, edges[j].1, edges[j].0, s),
            decreases m - k,
        {
            let (a, b, e) = self.edge(k);
            let ghost start = res@;
            if e.is_production_module_dep() {
                match e {
                    Edge::ModuleDep { locations, context } => {
                        let mut l: usize = 0;
                        while l < locations.len()
                            invariant
                                l <= locations@.len(),
                                edges == self.edge_seq(),
                                k < edges.len(),
                                edges[k as int] == (a, b, *e),
                                *e == (Edge::ModuleDep { locations: *locations, context: *context }),
                                edge_is_production_module_dep(*e),
                                start.len() <= res@.len(),
                                forall|i: int| 0 <= i < start.len() ==> #[trigger] res@[i] == start[i],
                                forall|i: int| 0 <= i < res@.len() ==> imports_symbol(edges, (#[trigger] res@[i]).1, res@[i].0, res@[i].2@),
                                forall|l2: int, s: Seq<char>| 0 <= l2 < l && #[trigger] names_symbol(locations@[l2], s) ==> listed(res@, b, a, s),
                            decreases locations.len() - l,
                        {
                            let loc = &locations[l];
                            if !loc.via_reexport {
                                let mut q: usize = 0;
                                while q < loc.symbols.len()
                                    invariant
                                        q <= loc.symbols@.len(),
                                        edges == self.edge_seq(),
                                        k < edges.len(),
                                        edges[k as int] == (a, b, *e),
                                        *e == (Edge::ModuleDep { locations: *locations, context: *context }),
                                        edge_is_production_module_dep(*e),
                                        l < locations@.len(),
                                        *loc == locations@[l as int],
                                        !loc.via_reexport,
                                        start.len() <= res@.len(),
                                        forall|i: int| 0 <= i < start.len() ==> #[trigger] res@[i] == start[i],
                                        forall|i: int| 0 <= i < res@.len() ==> imports_symbol(edges, (#[trigger] res@[i]).1, res@[i].0, res@[i].2@),
                                        forall|l2: int, s: Seq<char>| 0 <= l2 < l && #[trigger] names_symbol(locations@[l2], s) ==> listed(res@, b, a, s),
                                        forall|q2: int| 0 <= q2 < q ==> listed(res@, b, a, #[trigger] loc.symbols@[q2]@),
                                    decreases loc.symbols.len() - q,
                                {
                                    let sym = loc.symbols[q].clone();
                                    let ghost before = res@;
                                    proof {
                                        assert(sym@ == loc.symbols@[q as int]@);
                                        assert(names_symbol(locations@[l as int], sym@));
                                        lemma_edge_names(*e, *locations, l as int, sym@);
                                        assert(imports_symbol(edges, a, b, sym@));
                                    }
                                    res.push((b, a, sym));
                                    proof {
                                        lemma_listed_grow(before, res@);
                                        assert(res@[before.len() as int] == (b, a, sym));
                                        assert(listed(res@, b, a, loc.symbols@[q as int]@));
                                    }
                                    q = q + 1;
                                }
                                proof {
                                    assert forall|l2: int, s: Seq<char>| 0 <= l2 < l + 1 && #[trigger] names_symbol(locations@[l2], s) implies listed(res@, b, a, s) by {
                                        if l2 == l {
                                            let q2 = choose|q2: int| 0 <= q2 < loc.symbols@.len() && (#[trigger] loc.symbols@[q2])@ == s;
                                            assert(listed(res@, b, a, loc.symbols@[q2]@));
                                        }
                                    }
                                }
                            }
                            l = l + 1;
                        }
                        proof {
                            assert forall|j: int, s: Seq<char>| 0 <= j < k + 1 && #[trigger] edge_names(edges[j].2, s) implies listed(res@, edges[j].1, edges[j].0, s) by {
                                if j < k {
                                    lemma_listed_grow(start, res@);
                                } else {
                                    let l2 = choose|l2: int| 0 <= l2 < locations@.len() && #[trigger] names_symbol(locations@[l2], s);
                                }
                            }
                        }
                    },
                    _ => {},
                }
            }
            k = k + 1;
        }
        proof {
            assert forall|p: usize, c: usize, s: Seq<char>| #[trigger] imports_symbol(edges, c, p, s) implies listed(res@, p, c, s) by {
                let j = choose|j: int| 0 <= j < edges.len() && (#[trigger] edges[j]).0 == c && edges[j].1 == p && edge_names(edges[j].2, s);
            }
        }
        res
    }
}

/// Whether one list of indices sorts before another, element by element,
/// a proper prefix first.
pub open spec fn lex_less(a: Seq<usize>, b: Seq<usize>) -> bool
    decreases a.len(),
{
    if a.len() == 0 {
        b.len() > 0
    } else if b.len() == 0 {
        false
    } else if a[0] != b[0] {
        a[0] < b[0]
    } else {
        lex_less(a.drop_first(), b.drop_first())
    }
}

/// No list sorts before itself.
pub proof fn lemma_lex_irreflexive(a: Seq<usize>)
    ensures
        !lex_less(a, a),
    decreases a.len(),
{
    if a.len() > 0 {
        lemma_lex_irreflexive(a.drop_first());
    }
}

/// What sorts before a list that sorts before a third sorts before the third.
pub proof fn lemma_lex_transitive(a: Seq<usize>, b: Seq<usize>, c: Seq<usize>)
    requires
        lex_less(a, b),
        lex_less(b, c),
    ensures
        lex_less(a, c),
    decreases a.len(),
{
    if a.len() > 0 && b.len() > 0 && c.len() > 0 && a[0] == b[0] && b[0] == c[0] {
        lemma_lex_transitive(a.drop_first(), b.drop_first(), c.drop_first());
    }
}

/// Of two different lists, one sorts before the other.
pub proof fn lemma_lex_total(a: Seq<usize>, b: Seq<usize>)
    requires
        a != b,
    ensures
        lex_less(a, b) || lex_less(b, a),
    decreases a.len(),
{
    if a.len() == 0 && b.len() == 0 {
        assert(a =~= b);
    } else if a.len() > 0 && b.len() > 0 && a[0] == b[0] {
        if a.drop_first() == b.drop_first() {
            assert(a =~= seq![a[0]] + a.drop_first());
            assert(b =~= seq![b[0]] + b.drop_first());
        }
        lemma_lex_total(a.drop_first(), b.drop_first());
    }
}

/// Whether list `a` sorts before `b`.
fn lex_less_exec(a: &Vec<usize>, b: &Vec<usize>) -> (res: bool)
    ensures
        res == lex_less(a@, b@),
{
    let mut i: usize = 0;
    assert(a@.skip(0) =~= a@);
    assert(b@.skip(0) =~= b@);
    while i < a.len() && i < b.len() && a[i] == b[i]
        invariant
            i <= a@.len(),
            i <= b@.len(),
            lex_less(a@, b@) == lex_less(a@.skip(i as int), b@.skip(i as int)),
        decreases a.len() - i,
    {
        assert(a@.skip(i as int).drop_first() =~= a@.skip(i + 1));
        assert(b@.skip(i as int).drop_first() =~= b@.skip(i + 1));
        i = i + 1;
    }
    if i == a.len() {
        i < b.len()
    } else if i == b.len() {
        false
    } else {
        a[i] < b[i]
    }
}

/// The consumers the uses list for `p` and `s`.
pub open spec fn listed_consumers(uses: Seq<(usize, usize, String)>, p: usize, s: Seq<char>) -> Set<usize> {
    Set::new(|c: usize| listed(uses, p, c, s))
}

/// The consumers of `p`'s symbol `s` in the uses, ascending.
fn consumers_for(uses: &Vec<(usize, usize, String)>, p: usize, s: &String) -> (res: Vec<usize>)
    ensures
        increasing(res@),
        res@.to_set() == listed_consumers(uses@, p, s@),
{
    let mut res: Vec<usize> = Vec::new();
    let mut i: usize = 0;
    assert(res@.to_set() =~= Set::<usize>::empty());
    while i < uses.len()
        invariant
            i <= uses@.len(),
            increasing(res@),
            res@.to_set() == Set::new(|c: usize| exists|j: int| 0 <= j < i && (#[trigger] uses@[j]).0 == p && uses@[j].1 == c && uses@[j].2@ == s@),
        decreases uses.len() - i,
    {
        let ghost before = res@.to_set();
        if uses[i].0 == p && crate::collections::str_eq(uses[i].2.as_str(), s.as_str()) {
            insert_line(&mut res, uses[i].1);
        }
        assert(res@.to_set() =~= Set::new(|c: usize| exists|j: int| 0 <= j < i + 1 && (#[trigger] uses@[j]).0 == p && uses@[j].1 == c && uses@[j].2@ == s@)) by {
            assert forall|c: usize| res@.to_set().contains(c) implies exists|j: int| 0 <= j < i + 1 && (#[trigger] uses@[j]).0 == p && uses@[j].1 == c && uses@[j].2@ == s@ by {
                if !before.contains(c) {
                    assert(uses@[i as int].1 == c);
                }
            }
        }
        i = i + 1;
    }
    assert(res@.to_set() =~= listed_consumers(uses@, p, s@));
    res
}

/// Where the consumers of a group sit: one consumer is its own home; else
/// the deepest module enclosing them all, unless none does or it also
/// encloses the provider, which makes the group crate-wide.
pub open spec fn locality_of(g: ArcGraph, provider: usize, consumers: Seq<usize>) -> ConsumerLocality<usize> {
    if consumers.len() == 1 {
        ConsumerLocality::SingleConsumer(consumers[0])
    } else {
        match first_common(g.nodes(), g.edge_seq(), chain_of(g.nodes(), g.edge_seq(), consumers[0]), consumers.skip(1)) {
            Some(a) => if reaches(contains_pairs(g.edge_seq(), g.edge_seq().len() as int), a, provider) {
                ConsumerLocality::CrateWide
            } else {
                ConsumerLocality::CommonAncestor(a)
            },
            None => ConsumerLocality::CrateWide,
        }
    }
}

/// Symbols of a provider that share the exact same consumer set.
#[derive(Debug, PartialEq, Eq)]
pub struct ConsumerGroup {
    /// The importing modules, ascending.
    pub consumers: Vec<usize>,
    /// The symbols with exactly this consumer set, sorted.
    pub symbols: Vec<String>,
    pub locality: ConsumerLocality<usize>,
}

/// One provider module and its consumer groups.
#[derive(Debug, PartialEq, Eq)]
pub struct ProviderPartition {
    pub module: usize,
    pub consumer_groups: Vec<ConsumerGroup>,
}

/// The consumer groups of every provider module, by module.
#[derive(Debug, PartialEq, Eq)]
pub struct ImporterPartition {
    pub providers: Vec<ProviderPartition>,
}

/// The modules that import `p`'s symbol `s`.
pub open spec fn consumers_of(edges: Seq<(usize, usize, Edge)>, p: usize, s: Seq<char>) -> Set<usize> {
    Set::new(|c: usize| imports_symbol(edges, c, p, s))
}

/// Whether some module imports `p`'s symbol `s`.
pub open spec fn provides(edges: Seq<(usize, usize, Edge)>, p: usize, s: Seq<char>) -> bool {
    exists|c: usize| #[trigger] imports_symbol(edges, c, p, s)
}

/// Whether some module imports a symbol of `p`.
pub open spec fn is_provider(edges: Seq<(usize, usize, Edge)>, p: usize) -> bool {
    exists|s: Seq<char>| #[trigger] provides(edges, p, s)
}

/// Whether the groups partition `p`'s imported symbols by consumer set:
/// consumer sets ascending as lists, each group's consumers ascending and
/// the exact importers of each of its symbols, its symbols sorted, every
/// imported symbol in a group, and each group's locality.
pub open spec fn groups_ok(g: ArcGraph, p: usize, groups: Seq<ConsumerGroup>) -> bool {
    &&& forall|i: int, j: int| 0 <= i < j < groups.len() ==> lex_less(#[trigger] groups[i].consumers@, #[trigger] groups[j].consumers@)
    &&& forall|i: int|
        0 <= i < groups.len() ==> {
            &&& increasing(#[trigger] groups[i].consumers@)
            &&& groups[i].consumers@.len() > 0
            &&& groups[i].symbols@.len() > 0
            &&& strictly_sorted(groups[i].symbols@.map_values(|x: String| x@))
            &&& groups[i].locality == locality_of(g, p, groups[i].consumers@)
        }
    &&& forall|i: int, q: int|
        0 <= i < groups.len() && 0 <= q < groups[i].symbols@.len() ==> consumers_of(g.edge_seq(), p, #[trigger] groups[i].symbols@[q]@)
            == groups[i].consumers@.to_set()
    &&& forall|s: Seq<char>|
        #[trigger] provides(g.edge_seq(), p, s) ==> exists|i: int, q: int|
            0 <= i < groups.len() && 0 <= q < groups[i].symbols@.len() && (#[trigger] groups[i].symbols@[q])@ == s
}

/// Whether the index lists are equal.
fn same_indices(a: &Vec<usize>, b: &Vec<usize>) -> (res: bool)
    ensures
        res == (a@ == b@),
{
    if a.len() != b.len() {
        return false;
    }
    let mut i: usize = 0;
    while i < a.len()
        invariant
            i <= a@.len(),
            a@.len() == b@.len(),
            forall|j: int| 0 <= j < i ==> a@[j] == b@[j],
        decreases a.len() - i,
    {
        if a[i] != b[i] {
            return false;
        }
        i = i + 1;
    }
    assert(a@ =~= b@);
    true
}

impl ArcGraph {
    /// How close a group's consumers sit in the module tree.
    fn consumer_locality(&self, provider: usize, consumers: &Vec<usize>) -> (res: ConsumerLocality<usize>)
        requires
            consumers@.len() > 0,
            forall|i: int| 0 <= i < consumers@.len() ==> #[trigger] consumers@[i] < self.nodes().len(),
            containment_acyclic(self.edge_seq(), self.nodes().len()),
        ensures
            res == locality_of(*self, provider, consumers@),
    {
        if consumers.len() == 1 {
            return ConsumerLocality::SingleConsumer(consumers[0]);
        }
        match self.deepest_common_module(consumers.as_slice()) {
            Some(a) => {
                let subtree = self.containment_subtree(a);
                if subtree.contains(&provider) {
                    ConsumerLocality::CrateWide
                } else {
                    ConsumerLocality::CommonAncestor(a)
                }
            },
            None => ConsumerLocality::CrateWide,
        }
    }
}

/// Whether the uses list some consumer of `p`'s symbol `s`.
pub open spec fn listed_symbol(uses: Seq<(usize, usize, String)>, p: usize, s: Seq<char>) -> bool {
    exists|c: usize| #[trigger] listed(uses, p, c, s)
}

/// Whether the groups, built from the first `t` of `syms`, partition them
/// by their consumers in the uses: consumer lists ascending as lists, each
/// ascending, non-empty and the consumers of each of the group's symbols,
/// which are sorted and among those symbols, and each of those symbols in a
/// group.
pub open spec fn grouping_ok(
    uses: Seq<(usize, usize, String)>,
    p: usize,
    syms: Seq<Seq<char>>,
    t: int,
    groups: Seq<(Vec<usize>, Vec<String>)>,
) -> bool {
    &&& forall|i: int, j: int| 0 <= i < j < groups.len() ==> lex_less(#[trigger] groups[i].0@, #[trigger] groups[j].0@)
    &&& forall|i: int|
        0 <= i < groups.len() ==> {
            &&& increasing(#[trigger] groups[i].0@)
            &&& groups[i].0@.len() > 0
            &&& groups[i].1@.len() > 0
            &&& strictly_sorted(groups[i].1@.map_values(|x: String| x@))
        }
    &&& forall|i: int, q: int|
        0 <= i < groups.len() && 0 <= q < groups[i].1@.len() ==> listed_consumers(uses, p, #[trigger] groups[i].1@[q]@)
            == groups[i].0@.to_set() && syms.take(t).contains(groups[i].1@[q]@)
    &&& forall|u: int|
        0 <= u < t ==> exists|i: int, q: int|
            0 <= i < groups.len() && 0 <= q < groups[i].1@.len() && (#[trigger] groups[i].1@[q])@ == #[trigger] syms[u]
}

/// Group `p`'s symbols by the exact list of their consumers in the uses,
/// consumer lists ascending, each group's symbols in the order given.
fn group_symbols(uses: &Vec<(usize, usize, String)>, p: usize, syms: &Vec<String>) -> (res: Vec<(Vec<usize>, Vec<String>)>)
    requires
        strictly_sorted(syms@.map_values(|x: String| x@)),
        forall|u: int| 0 <= u < syms@.len() ==> listed_symbol(uses@, p, #[trigger] syms@[u]@),
    ensures
        grouping_ok(uses@, p, syms@.map_values(|x: String| x@), syms@.len() as int, res@),
{
    let ghost sv = syms@.map_values(|x: String| x@);
    let mut groups: Vec<(Vec<usize>, Vec<String>)> = Vec::new();
    let mut t: usize = 0;
    while t < syms.len()
        invariant
            t <= syms@.len(),
            sv == syms@.map_values(|x: String| x@),
            strictly_sorted(sv),
            forall|u: int| 0 <= u < syms@.len() ==> listed_symbol(uses@, p, #[trigger] syms@[u]@),
            grouping_ok(uses@, p, sv, t as int, groups@),
        decreases syms.len() - t,
    {
        let s = &syms[t];
        assert(sv[t as int] == s@);
        let cs = consumers_for(uses, p, s);
        proof {
            assert(listed_symbol(uses@, p, syms@[t as int]@));
            let c = choose|c: usize| #[trigger] listed(uses@, p, c, s@);
            assert(listed_consumers(uses@, p, s@).contains(c));
            assert(cs@.to_set().contains(c));
        }
        let ghost old_groups = groups@;
        proof {
            assert(sv.take(t + 1) =~= sv.take(t as int).push(s@));
            assert forall|i2: int, q: int| 0 <= i2 < old_groups.len() && 0 <= q < old_groups[i2].1@.len() implies seq_less(
                #[trigger] old_groups[i2].1@[q]@,
                s@,
            ) && sv.take(t + 1).contains(old_groups[i2].1@[q]@) by {
                assert(sv.take(t as int).contains(old_groups[i2].1@[q]@));
                let u = choose|u: int| 0 <= u < t && sv.take(t as int)[u] == old_groups[i2].1@[q]@;
                assert(sv[u] == old_groups[i2].1@[q]@);
                assert(sv.take(t + 1)[u] == sv[u]);
            }
            assert(sv.take(t + 1)[t as int] == s@);
        }
        let mut found: Option<usize> = None;
        let mut i: usize = 0;
        while i < groups.len()
            invariant
                i <= groups@.len(),
                groups@ == old_groups,
                match found {
                    Some(f) => f < groups@.len() && groups@[f as int].0@ == cs@,
                    None => forall|j: int| 0 <= j < i ==> (#[trigger] groups@[j]).0@ != cs@,
                },
            decreases groups.len() - i,
        {
            if found.is_none() && same_indices(&groups[i].0, &cs) {
                found = Some(i);
            }
            i = i + 1;
        }
        match found {
            Some(f) => {
                let mut entry = groups.remove(f);
                let ghost old_syms = entry.1@;
                assert(old_syms == old_groups[f as int].1@);
                let sc = s.clone();
                entry.1.push(sc);
                groups.insert(f, entry);
                proof {
                    assert(groups@ =~= old_groups.update(f as int, entry));
                    assert(entry.1@ == old_syms.push(sc));
                    assert(entry.0@ == cs@);
                    let sn = entry.1@.map_values(|x: String| x@);
                    let so = old_syms.map_values(|x: String| x@);
                    assert(sn =~= so.push(s@));
                    assert forall|a: int, b: int| 0 <= a < b < sn.len() implies seq_less(#[trigger] sn[a], #[trigger] sn[b]) by {
                        if b < so.len() {
                            assert(sn[a] == so[a] && sn[b] == so[b]);
                        } else {
                            assert(sn[a] == old_syms[a]@);
                            assert(seq_less(old_groups[f as int].1@[a]@, s@));
                        }
                    }
                    let ng = groups@;
                    assert forall|i2: int, q: int|
                        0 <= i2 < ng.len() && 0 <= q < ng[i2].1@.len() implies listed_consumers(uses@, p, #[trigger] ng[i2].1@[q]@)
                            == ng[i2].0@.to_set() && sv.take(t + 1).contains(ng[i2].1@[q]@) by {
                        if i2 == f && q == old_syms.len() {
                            assert(ng[i2].1@[q] == sc);
                        } else {
                            assert(ng[i2].1@[q] == old_groups[i2].1@[q]);
                        }
                    }
                    assert forall|u: int| 0 <= u < t + 1 implies exists|i2: int, q: int|
                        0 <= i2 < ng.len() && 0 <= q < ng[i2].1@.len() && (#[trigger] ng[i2].1@[q])@ == #[trigger] sv[u] by {
                        if u < t {
                            let (i2, q) = choose|i2: int, q: int|
                                0 <= i2 < old_groups.len() && 0 <= q < old_groups[i2].1@.len() && (#[trigger] old_groups[i2].1@[q])@ == #[trigger] sv[u];
                            assert(ng[i2].1@[q] == old_groups[i2].1@[q]);
                        } else {
                            assert(ng[f as int].1@[old_syms.len() as int] == sc);
                        }
                    }
                    assert(grouping_ok(uses@, p, sv, t + 1, groups@));
                }
            },
            None => {
                let mut q0: usize = 0;
                while q0 < groups.len() && !lex_less_exec(&cs, &groups[q0].0)
                    invariant
                        q0 <= groups@.len(),
                        groups@ == old_groups,
                        forall|j: int| 0 <= j < q0 ==> !lex_less(cs@, (#[trigger] groups@[j]).0@),
                    decreases groups.len() - q0,
                {
                    q0 = q0 + 1;
                }
                let mut names: Vec<String> = Vec::new();
                let sc = s.clone();
                names.push(sc);
                let entry = (cs, names);
                groups.insert(q0, entry);
                proof {
                    let ng = groups@;
                    assert(ng == old_groups.insert(q0 as int, entry));
                    assert(ng[q0 as int] == entry);
                    assert forall|j: int| 0 <= j < q0 implies ng[j] == old_groups[j] by {}
                    assert forall|j: int| q0 < j < ng.len() implies ng[j] == old_groups[j - 1] by {}
                    assert forall|a: int, b: int| 0 <= a < b < ng.len() implies lex_less(#[trigger] ng[a].0@, #[trigger] ng[b].0@) by {
                        if b < q0 {
                        } else if b == q0 {
                            assert(old_groups[a].0@ != cs@);
                            lemma_lex_total(old_groups[a].0@, cs@);
                        } else if a < q0 {
                            assert(ng[b] == old_groups[b - 1]);
                        } else if a == q0 {
                            assert(ng[b] == old_groups[b - 1]);
                            assert(lex_less(cs@, old_groups[q0 as int].0@));
                            if b - 1 > q0 {
                                lemma_lex_transitive(cs@, old_groups[q0 as int].0@, old_groups[b - 1].0@);
                            }
                        } else {
                            assert(ng[a] == old_groups[a - 1] && ng[b] == old_groups[b - 1]);
                        }
                    }
                    assert(entry.1@.map_values(|x: String| x@) =~= seq![s@]);
                    assert forall|i2: int|
                        0 <= i2 < ng.len() implies {
                            &&& increasing(#[trigger] ng[i2].0@)
                            &&& ng[i2].0@.len() > 0
                            &&& ng[i2].1@.len() > 0
                            &&& strictly_sorted(ng[i2].1@.map_values(|x: String| x@))
                        } by {
                        if i2 < q0 {
                            assert(ng[i2] == old_groups[i2]);
                        } else if i2 > q0 {
                            assert(ng[i2] == old_groups[i2 - 1]);
                        }
                    }
                    assert forall|i2: int, q: int|
                        0 <= i2 < ng.len() && 0 <= q < ng[i2].1@.len() implies listed_consumers(uses@, p, #[trigger] ng[i2].1@[q]@)
                            == ng[i2].0@.to_set() && sv.take(t + 1).contains(ng[i2].1@[q]@) by {
                        if i2 < q0 {
                            assert(ng[i2] == old_groups[i2]);
                        } else if i2 > q0 {
                            assert(ng[i2] == old_groups[i2 - 1]);
                            assert(ng[i2].1@[q] == old_groups[i2 - 1].1@[q]);
                        } else {
                            assert(ng[i2].1@[q] == sc);
                        }
                    }
                    assert forall|u: int| 0 <= u < t + 1 implies exists|i2: int, q: int|
                        0 <= i2 < ng.len() && 0 <= q < ng[i2].1@.len() && (#[trigger] ng[i2].1@[q])@ == #[trigger] sv[u] by {
                        if u < t {
                            let (i2, q) = choose|i2: int, q: int|
                                0 <= i2 < old_groups.len() && 0 <= q < old_groups[i2].1@.len() && (#[trigger] old_groups[i2].1@[q])@ == #[trigger] sv[u];
                            if i2 < q0 {
                                assert(ng[i2] == old_groups[i2]);
                            } else {
                                assert(ng[i2 + 1] == old_groups[i2]);
                            }
                        } else {
                            assert(ng[q0 as int].1@[0] == sc);
                        }
                    }
                }
            },
        }
        t = t + 1;
    }
    groups
}

/// The names of a list of strings, as a set.
pub open spec fn name_set(v: Seq<String>) -> Set<Seq<char>> {
    v.map_values(|x: String| x@).to_set()
}

/// Whether the uses are exactly the graph's imports of symbols.
pub open spec fn uses_exact(edges: Seq<(usize, usize, Edge)>, uses: Seq<(usize, usize, String)>) -> bool {
    &&& forall|i: int| 0 <= i < uses.len() ==> imports_symbol(edges, (#[trigger] uses[i]).1, uses[i].0, uses[i].2@)
    &&& forall|p: usize, c: usize, s: Seq<char>| #[trigger] imports_symbol(edges, c, p, s) ==> listed(uses, p, c, s)
}

/// With exact uses, the consumers the uses list are the importers.
pub proof fn lemma_listed_consumers(edges: Seq<(usize, usize, Edge)>, uses: Seq<(usize, usize, String)>, p: usize, s: Seq<char>)
    requires
        uses_exact(edges, uses),
    ensures
        listed_consumers(uses, p, s) == consumers_of(edges, p, s),
        listed_symbol(uses, p, s) == provides(edges, p, s),
{
    assert forall|c: usize| listed_consumers(uses, p, s).contains(c) <==> consumers_of(edges, p, s).contains(c) by {
        if listed(uses, p, c, s) {
            let i = choose|i: int| 0 <= i < uses.len() && (#[trigger] uses[i]).0 == p && uses[i].1 == c && uses[i].2@ == s;
            assert(imports_symbol(edges, uses[i].1, uses[i].0, uses[i].2@));
        }
    }
    assert(listed_consumers(uses, p, s) =~= consumers_of(edges, p, s));
    if listed_symbol(uses, p, s) {
        let c = choose|c: usize| #[trigger] listed(uses, p, c, s);
        assert(consumers_of(edges, p, s).contains(c));
        assert(imports_symbol(edges, c, p, s));
    }
    if provides(edges, p, s) {
        let c = choose|c: usize| #[trigger] imports_symbol(edges, c, p, s);
        assert(listed(uses, p, c, s));
    }
}

impl ArcGraph {
    /// The consumer groups of provider `p`: its imported symbols bundled by
    /// their exact consumer set, each group with its locality.
    fn consumer_groups_of(&self, p: usize, uses: &Vec<(usize, usize, String)>) -> (res: Vec<ConsumerGroup>)
        requires
            uses_exact(self.edge_seq(), uses@),
            containment_acyclic(self.edge_seq(), self.nodes().len()),
        ensures
            groups_ok(*self, p, res@),
    {
        let ghost edges = self.edge_seq();
        let n = self.node_count();
        let mut syms: Vec<String> = Vec::new();
        let mut i: usize = 0;
        assert(syms@.map_values(|x: String| x@) =~= Seq::<Seq<char>>::empty());
        while i < uses.len()
            invariant
                i <= uses@.len(),
                strictly_sorted(syms@.map_values(|x: String| x@)),
                forall|s: Seq<char>| #[trigger] name_set(syms@).contains(s) <==> exists|j: int|
                    0 <= j < i && (#[trigger] uses@[j]).0 == p && uses@[j].2@ == s,
            decreases uses.len() - i,
        {
            let ghost before = name_set(syms@);
            if uses[i].0 == p {
                insert_sorted(&mut syms, uses[i].2.clone());
            }
            assert forall|s: Seq<char>| #[trigger] name_set(syms@).contains(s) <==> exists|j: int|
                0 <= j < i + 1 && (#[trigger] uses@[j]).0 == p && uses@[j].2@ == s by {
                if name_set(syms@).contains(s) && !before.contains(s) {
                    assert(uses@[i as int].0 == p && uses@[i as int].2@ == s);
                }
                if exists|j: int| 0 <= j < i + 1 && (#[trigger] uses@[j]).0 == p && uses@[j].2@ == s {
                    let j = choose|j: int| 0 <= j < i + 1 && (#[trigger] uses@[j]).0 == p && uses@[j].2@ == s;
                    if j < i {
                        assert(before.contains(s));
                    }
                }
            }
            i = i + 1;
        }
        let ghost sv = syms@.map_values(|x: String| x@);
        assert(name_set(syms@) == sv.to_set());
        proof {
            assert forall|u: int| 0 <= u < syms@.len() implies listed_symbol(uses@, p, #[trigger] syms@[u]@) by {
                assert(sv[u] == syms@[u]@);
                assert(sv.to_set().contains(sv[u]));
                assert(name_set(syms@).contains(sv[u]));
                let j = choose|j: int| 0 <= j < uses@.len() && (#[trigger] uses@[j]).0 == p && uses@[j].2@ == sv[u];
                assert(listed(uses@, p, uses@[j].1, sv[u]));
            }
        }
        let mut grouped = group_symbols(uses, p, &syms);
        let ghost all = grouped@;
        let mut res: Vec<ConsumerGroup> = Vec::new();
        while grouped.len() > 0
            invariant
                n == self.nodes().len(),
                edges == self.edge_seq(),
                arc_edges_within(edges, n as nat),
                uses_exact(edges, uses@),
                containment_acyclic(edges, n as nat),
                grouping_ok(uses@, p, sv, sv.len() as int, all),
                name_set(syms@) == sv.to_set(),
                forall|s: Seq<char>| #[trigger] name_set(syms@).contains(s) <==> exists|j: int|
                    0 <= j < uses@.len() && (#[trigger] uses@[j]).0 == p && uses@[j].2@ == s,
                res@.len() + grouped@.len() == all.len(),
                grouped@ == all.skip(res@.len() as int),
                forall|j: int| 0 <= j < res@.len() ==> (#[trigger] res@[j]).consumers@ == all[j].0@ && res@[j].symbols@ == all[j].1@
                    && res@[j].locality == locality_of(*self, p, all[j].0@),
            decreases grouped.len(),
        {
            let ghost k = res@.len() as int;
            let (consumers, symbols) = grouped.remove(0);
            assert(all.skip(k).drop_first() =~= all.skip(k + 1));
            assert(consumers@ == all[k].0@ && symbols@ == all[k].1@);
            proof {
                assert forall|q: int| 0 <= q < consumers@.len() implies #[trigger] consumers@[q] < self.nodes().len() by {
                    let c = consumers@[q];
                    assert(all[k].1@.len() > 0);
                    let s = all[k].1@[0]@;
                    assert(listed_consumers(uses@, p, s) == all[k].0@.to_set());
                    assert(all[k].0@.to_set().contains(c));
                    lemma_listed_consumers(edges, uses@, p, s);
                    assert(imports_symbol(edges, c, p, s));
                    let e = choose|e: int| 0 <= e < edges.len() && (#[trigger] edges[e]).0 == c && edges[e].1 == p && crate::diagnose::importers::edge_names(edges[e].2, s);
                    assert(edges[e].0 < n);
                }
            }
            let locality = self.consumer_locality(p, &consumers);
            res.push(ConsumerGroup { consumers, symbols, locality });
        }
        proof {
            assert(res@.len() == all.len());
            let g = res@;
            assert forall|s: Seq<char>| #[trigger] provides(edges, p, s) implies exists|i2: int, q: int|
                0 <= i2 < g.len() && 0 <= q < g[i2].symbols@.len() && (#[trigger] g[i2].symbols@[q])@ == s by {
                lemma_listed_consumers(edges, uses@, p, s);
                let c = choose|c: usize| #[trigger] listed(uses@, p, c, s);
                let j = choose|j: int| 0 <= j < uses@.len() && (#[trigger] uses@[j]).0 == p && uses@[j].1 == c && uses@[j].2@ == s;
                assert(name_set(syms@).contains(s));
                assert(sv.to_set().contains(s));
                let u = choose|u: int| 0 <= u < sv.len() && sv[u] == s;
                assert(sv.take(sv.len() as int) =~= sv);
                let (i2, q) = choose|i2: int, q: int|
                    0 <= i2 < all.len() && 0 <= q < all[i2].1@.len() && (#[trigger] all[i2].1@[q])@ == #[trigger] sv[u];
                assert(g[i2].symbols@ == all[i2].1@);
            }
            assert forall|i2: int, q: int|
                0 <= i2 < g.len() && 0 <= q < g[i2].symbols@.len() implies consumers_of(edges, p, #[trigger] g[i2].symbols@[q]@)
                    == g[i2].consumers@.to_set() by {
                assert(g[i2].symbols@ == all[i2].1@);
                lemma_listed_consumers(edges, uses@, p, all[i2].1@[q]@);
            }
            assert forall|a: int, b: int| 0 <= a < b < g.len() implies lex_less(#[trigger] g[a].consumers@, #[trigger] g[b].consumers@) by {
                assert(lex_less(all[a].0@, all[b].0@));
            }
            assert forall|i2: int| 0 <= i2 < g.len() implies {
                &&& increasing(#[trigger] g[i2].consumers@)
                &&& g[i2].consumers@.len() > 0
                &&& g[i2].symbols@.len() > 0
                &&& strictly_sorted(g[i2].symbols@.map_values(|x: String| x@))
                &&& g[i2].locality == locality_of(*self, p, g[i2].consumers@)
            } by {
                assert(increasing(all[i2].0@));
            }
        }
        res
    }

    /// Partition every provider module's symbols by their consumer set: the
    /// providers ascending, those modules some production module dependency
    /// imports a symbol of, at a location that is not a re-export.
    pub fn importer_partition(&self) -> (res: ImporterPartition)
        requires
            containment_acyclic(self.edge_seq(), self.nodes().len()),
        ensures
            forall|i: int, j: int| 0 <= i < j < res.providers@.len() ==> (#[trigger] res.providers@[i]).module < (#[trigger] res.providers@[j]).module,
            forall|p: usize| #[trigger] is_provider(self.edge_seq(), p) <==> exists|i: int|
                0 <= i < res.providers@.len() && (#[trigger] res.providers@[i]).module == p,
            forall|i: int| 0 <= i < res.providers@.len() ==> groups_ok(*self, (#[trigger] res.providers@[i]).module, res.providers@[i].consumer_groups@),
    {
        let ghost edges = self.edge_seq();
        let uses = self.symbol_uses();
        let mut provs: Vec<usize> = Vec::new();
        let mut i: usize = 0;
        while i < uses.len()
            invariant
                i <= uses@.len(),
                increasing(provs@),
                provs@.to_set() == Set::new(|p: usize| exists|j: int| 0 <= j < i && (#[trigger] uses@[j]).0 == p),
            decreases uses.len() - i,
        {
            let ghost before = provs@.to_set();
            insert_line(&mut provs, uses[i].0);
            assert(provs@.to_set() =~= Set::new(|p: usize| exists|j: int| 0 <= j < i + 1 && (#[trigger] uses@[j]).0 == p)) by {
                assert forall|p: usize| #[trigger] provs@.to_set().contains(p) implies exists|j: int| 0 <= j < i + 1 && (#[trigger] uses@[j]).0 == p by {
                    if !before.contains(p) {
                        assert(uses@[i as int].0 == p);
                    }
                }
            }
            i = i + 1;
        }
        let mut providers: Vec<ProviderPartition> = Vec::new();
        let mut k: usize = 0;
        while k < provs.len()
            invariant
                k <= provs@.len(),
                edges == self.edge_seq(),
                uses_exact(edges, uses@),
                containment_acyclic(edges, self.nodes().len()),
                providers@.len() == k,
                forall|j: int| 0 <= j < k ==> (#[trigger] providers@[j]).module == provs@[j],
                forall|j: int| 0 <= j < k ==> groups_ok(*self, (#[trigger] providers@[j]).module, providers@[j].consumer_groups@),
            decreases provs.len() - k,
        {
            let p = provs[k];
            let consumer_groups = self.consumer_groups_of(p, &uses);
            providers.push(ProviderPartition { module: p, consumer_groups });
            k = k + 1;
        }
        proof {
            assert forall|a: int, b: int| 0 <= a < b < providers@.len() implies (#[trigger] providers@[a]).module < (#[trigger] providers@[b]).module by {
                assert(provs@[a] < provs@[b]);
            }
            assert forall|p: usize| #[trigger] is_provider(edges, p) <==> exists|i2: int|
                0 <= i2 < providers@.len() && (#[trigger] providers@[i2]).module == p by {
                if exists|s: Seq<char>| #[trigger] provides(edges, p, s) {
                    let s = choose|s: Seq<char>| #[trigger] provides(edges, p, s);
                    lemma_listed_consumers(edges, uses@, p, s);
                    let c = choose|c: usize| #[trigger] listed(uses@, p, c, s);
                    let j = choose|j: int| 0 <= j < uses@.len() && (#[trigger] uses@[j]).0 == p && uses@[j].1 == c && uses@[j].2@ == s;
                    assert(provs@.to_set().contains(p));
                    let i2 = choose|i2: int| 0 <= i2 < provs@.len() && provs@[i2] == p;
                    assert(providers@[i2].module == p);
                }
                if exists|i2: int| 0 <= i2 < providers@.len() && (#[trigger] providers@[i2]).module == p {
                    let i2 = choose|i2: int| 0 <= i2 < providers@.len() && (#[trigger] providers@[i2]).module == p;
                    assert(provs@.to_set().contains(provs@[i2]));
                    let j = choose|j: int| 0 <= j < uses@.len() && (#[trigger] uses@[j]).0 == p;
                    assert(imports_symbol(edges, uses@[j].1, uses@[j].0, uses@[j].2@));
                    assert(provides(edges, p, uses@[j].2@));
                }
            }
        }
        let res = ImporterPartition { providers };
        assert(res.providers@ == providers@);
        res
    }
}

} // verus!
