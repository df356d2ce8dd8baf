//! What each module of a crate exports, and the resolution of a dependency
//! through re-exports to the module that defines the item.
//!
//! A module's exports are its own public definitions, its named re-exports
//! (`pub use a::B`), and its glob re-exports (`pub use a::*`). A descendant
//! module also sees the private `use` bindings and private globs of its
//! ancestors.

use vstd::prelude::*;

use crate::collections::{str_eq, StrMap, StrSet};
use crate::model::{Definition, DepView, DependencyRef};
use crate::text::{chars_of, colons, starts_with, string_of};

verus! {

/// Where a re-exported symbol originally comes from.
#[derive(Debug)]
pub struct ReExportTarget {
    /// Source module path, crate-relative.
    pub module: String,
    /// Original name in the source module (differs from the key on a rename).
    pub original_name: String,
}

/// The items a type or trait carries with it, by name: a variant builds a
/// value, a fn is called, a const is read.
#[derive(Debug)]
pub struct AssociatedItems {
    pub variants: StrSet,
    pub fns: StrSet,
    pub consts: StrSet,
}

impl AssociatedItems {
    /// No items.
    pub fn new() -> (res: Self)
        ensures
            res.variants@ == Set::<Seq<char>>::empty(),
            res.fns@ == Set::<Seq<char>>::empty(),
            res.consts@ == Set::<Seq<char>>::empty(),
    {
        AssociatedItems { variants: StrSet::new(), fns: StrSet::new(), consts: StrSet::new() }
    }

    /// Record an associated fn.
    pub fn add_fn(&mut self, name: &str)
        ensures
            final(self).fns@ == old(self).fns@.insert(name@),
            final(self).variants@ == old(self).variants@,
            final(self).consts@ == old(self).consts@,
    {
        self.fns.insert(owned(name));
    }

    /// Record an associated const.
    pub fn add_const(&mut self, name: &str)
        ensures
            final(self).consts@ == old(self).consts@.insert(name@),
            final(self).variants@ == old(self).variants@,
            final(self).fns@ == old(self).fns@,
    {
        self.consts.insert(owned(name));
    }

    /// Take in `other`'s items, so two `impl` blocks of one type add up.
    pub fn merge(&mut self, other: Self)
        ensures
            final(self).variants@ == old(self).variants@.union(other.variants@),
            final(self).fns@ == old(self).fns@.union(other.fns@),
            final(self).consts@ == old(self).consts@.union(other.consts@),
    {
        extend_set(&mut self.variants, other.variants);
        extend_set(&mut self.fns, other.fns);
        extend_set(&mut self.consts, other.consts);
    }
}

/// An owned copy of `s`.
pub fn owned(s: &str) -> (res: String)
    ensures
        res@ == s@,
{
    let chars = chars_of(s);
    string_of(chars.as_slice())
}

/// Add every member of `other` to `set`.
fn extend_set(set: &mut StrSet, other: StrSet)
    ensures
        final(set)@ == old(set)@.union(other@),
{
    proof {
        other.lemma_items();
    }
    let mut i: usize = 0;
    while i < other.len()
        invariant
            i <= other.item_seq().len(),
            forall|k: Seq<char>| other@.contains(k) <==> other.item_seq().contains(k),
            set@ == old(set)@.union(other.item_seq().take(i as int).to_set()),
        decreases other.item_seq().len() - i,
    {
        let s = other.item_at(i).clone();
        set.insert(s);
        proof {
            assert(other.item_seq().take(i + 1) =~= other.item_seq().take(i as int).push(
                other.item_seq()[i as int],
            ));
            other.item_seq().take(i as int).lemma_push_to_set_commute(other.item_seq()[i as int]);
        }
        i = i + 1;
        proof {
            assert(set@ =~= old(set)@.union(other.item_seq().take(i as int).to_set()));
        }
    }
    proof {
        assert(other.item_seq().take(i as int) =~= other.item_seq());
        assert(other.item_seq().to_set() =~= other@);
    }
}

/// Export and re-export information for a single module.
#[derive(Debug)]
pub struct ModuleExportInfo {
    /// Own public definitions: name → kind and line.
    pub definitions: StrMap<Definition>,
    /// The associated items of the types and traits defined here.
    pub associated: StrMap<AssociatedItems>,
    /// Named re-exports: alias or name → source.
    pub explicit_reexports: StrMap<ReExportTarget>,
    /// Private `use` bindings, visible to descendant modules only.
    pub private_uses: StrMap<ReExportTarget>,
    /// Glob re-export sources (`pub use m::*`).
    pub glob_sources: Vec<String>,
    /// Private glob sources (`use m::*`), visible to descendants only.
    pub private_glob_sources: Vec<String>,
}

impl ModuleExportInfo {
    /// A module that exports nothing.
    pub fn new() -> (res: Self)
        ensures
            res.definitions@ == Map::<Seq<char>, Definition>::empty(),
            res.associated@ == Map::<Seq<char>, AssociatedItems>::empty(),
            res.explicit_reexports@ == Map::<Seq<char>, ReExportTarget>::empty(),
            res.private_uses@ == Map::<Seq<char>, ReExportTarget>::empty(),
            res.glob_sources@ == Seq::<String>::empty(),
            res.private_glob_sources@ == Seq::<String>::empty(),
    {
        ModuleExportInfo {
            definitions: StrMap::new(),
            associated: StrMap::new(),
            explicit_reexports: StrMap::new(),
            private_uses: StrMap::new(),
            glob_sources: Vec::new(),
            private_glob_sources: Vec::new(),
        }
    }

    /// Whether the module records nothing at all.
    pub fn is_empty(&self) -> (res: bool)
        ensures
            res == (self.definitions@.dom().is_empty() && self.associated@.dom().is_empty()
                && self.explicit_reexports@.dom().is_empty() && self.private_uses@.dom().is_empty()
                && self.glob_sources@.len() == 0 && self.private_glob_sources@.len() == 0),
    {
        proof {
            assert(Set::<Seq<char>>::empty().is_empty());
        }
        self.definitions.is_empty() && self.associated.is_empty()
            && self.explicit_reexports.is_empty() && self.private_uses.is_empty()
            && self.glob_sources.len() == 0 && self.private_glob_sources.len() == 0
    }
}

/// Whether `module` is `ancestor` itself or nested below it. The crate root
/// (the empty path) is an ancestor of every module.
pub open spec fn descends(module: Seq<char>, ancestor: Seq<char>) -> bool {
    ||| ancestor.len() == 0
    ||| module == ancestor
    ||| (ancestor + colons()).is_prefix_of(module)
}

/// Whether `module` is `ancestor` itself or nested below it.
pub fn is_descendant(module: &str, ancestor: &str) -> (res: bool)
    ensures
        res == descends(module@, ancestor@),
{
    if ancestor.is_empty() {
        return true;
    }
    if str_eq(module, ancestor) {
        return true;
    }
    let mut prefix = chars_of(ancestor);
    prefix.push(':');
    prefix.push(':');
    assert(prefix@ =~= ancestor@ + colons());
    starts_with(&chars_of(module), &prefix)
}

/// The views of a list of strings.
pub open spec fn str_views(v: Seq<String>) -> Seq<Seq<char>> {
    v.map_values(|s: String| s@)
}

/// Whether module `m` offers `symbol` by itself: a definition or a named
/// re-export.
pub open spec fn provides(ex: Map<Seq<char>, ModuleExportInfo>, m: Seq<char>, symbol: Seq<char>) -> bool {
    &&& ex.dom().contains(m)
    &&& (ex[m].definitions@.dom().contains(symbol) || ex[m].explicit_reexports@.dom().contains(symbol))
}

/// One hop of a glob chain. Through public globs (`private` false) any
/// module passes on what its glob source exports; through private globs
/// (`private` true) only a module that `importer` descends from passes on
/// its private glob sources.
pub open spec fn glob_step(
    ex: Map<Seq<char>, ModuleExportInfo>,
    private: bool,
    importer: Seq<char>,
    a: Seq<char>,
    b: Seq<char>,
) -> bool {
    &&& ex.dom().contains(a)
    &&& if private {
        descends(importer, a) && str_views(ex[a].private_glob_sources@).contains(b)
    } else {
        str_views(ex[a].glob_sources@).contains(b)
    }
}

/// A non-empty chain of glob hops.
pub open spec fn is_chain(
    ex: Map<Seq<char>, ModuleExportInfo>,
    private: bool,
    importer: Seq<char>,
    p: Seq<Seq<char>>,
) -> bool {
    &&& p.len() > 0
    &&& forall|i: int|
        0 <= i < p.len() - 1 ==> #[trigger] glob_step(ex, private, importer, p[i], p[i + 1])
}

/// Whether a chain of public globs from `start` ends at a module that
/// provides `symbol`: `start` exports it.
pub open spec fn exports_symbol(
    ex: Map<Seq<char>, ModuleExportInfo>,
    importer: Seq<char>,
    start: Seq<char>,
    symbol: Seq<char>,
) -> bool {
    exists|p: Seq<Seq<char>>|
        #![trigger is_chain(ex, false, importer, p)]
        is_chain(ex, false, importer, p) && p[0] == start && provides(ex, p.last(), symbol)
}

/// What the end of a chain must hold: through public globs, a module that
/// provides the symbol; through private globs, a module that exports it.
pub open spec fn chain_goal(
    ex: Map<Seq<char>, ModuleExportInfo>,
    private: bool,
    importer: Seq<char>,
    m: Seq<char>,
    symbol: Seq<char>,
) -> bool {
    if private {
        exports_symbol(ex, importer, m, symbol)
    } else {
        provides(ex, m, symbol)
    }
}

/// Whether a chain from `start` ends where [`chain_goal`] holds. Through
/// public globs this is [`exports_symbol`]; through private globs it says
/// that `importer` can name `symbol` through `start`.
pub open spec fn reaches(
    ex: Map<Seq<char>, ModuleExportInfo>,
    private: bool,
    importer: Seq<char>,
    start: Seq<char>,
    symbol: Seq<char>,
) -> bool {
    exists|p: Seq<Seq<char>>|
        #![trigger is_chain(ex, private, importer, p)]
        is_chain(ex, private, importer, p) && p[0] == start && chain_goal(ex, private, importer, p.last(), symbol)
}

/// Whether `q` ends a chain from `start`.
pub open spec fn chained(
    ex: Map<Seq<char>, ModuleExportInfo>,
    private: bool,
    importer: Seq<char>,
    start: Seq<char>,
    q: Seq<char>,
) -> bool {
    exists|p: Seq<Seq<char>>|
        #![trigger is_chain(ex, private, importer, p)]
        is_chain(ex, private, importer, p) && p[0] == start && p.last() == q
}

/// How many entries of `keys` are not in `seen`.
pub open spec fn unvisited_count(keys: Seq<Seq<char>>, seen: Set<Seq<char>>) -> nat
    decreases keys.len(),
{
    if keys.len() == 0 {
        0
    } else {
        unvisited_count(keys.drop_last(), seen) + if seen.contains(keys.last()) {
            0nat
        } else {
            1nat
        }
    }
}

/// Seeing one more name never raises the count, and seeing a new key lowers it.
pub proof fn lemma_unvisited_insert(keys: Seq<Seq<char>>, seen: Set<Seq<char>>, b: Seq<char>)
    ensures
        unvisited_count(keys, seen.insert(b)) <= unvisited_count(keys, seen),
        keys.contains(b) && !seen.contains(b) ==> unvisited_count(keys, seen.insert(b))
            < unvisited_count(keys, seen),
    decreases keys.len(),
{
    if keys.len() > 0 {
        lemma_unvisited_insert(keys.drop_last(), seen, b);
        if keys.contains(b) && !seen.contains(b) && keys.last() != b {
            let j = choose|j: int| 0 <= j < keys.len() && keys[j] == b;
            assert(keys.drop_last()[j] == b);
        }
    }
}

/// A chain extended by one hop is a chain.
pub proof fn lemma_chain_push(
    ex: Map<Seq<char>, ModuleExportInfo>,
    private: bool,
    importer: Seq<char>,
    p: Seq<Seq<char>>,
    b: Seq<char>,
)
    requires
        is_chain(ex, private, importer, p),
        glob_step(ex, private, importer, p.last(), b),
    ensures
        is_chain(ex, private, importer, p.push(b)),
        p.push(b)[0] == p[0],
        p.push(b).last() == b,
{
    let q = p.push(b);
    assert forall|i: int| 0 <= i < q.len() - 1 implies #[trigger] glob_step(
        ex,
        private,
        importer,
        q[i],
        q[i + 1],
    ) by {
        if i < p.len() - 1 {
            assert(q[i] == p[i] && q[i + 1] == p[i + 1]);
            assert(glob_step(ex, private, importer, p[i], p[i + 1]));
        } else {
            assert(q[i] == p.last());
        }
    }
}

/// Only a module of the map holds a chain's goal.
pub proof fn lemma_goal_in_map(
    ex: Map<Seq<char>, ModuleExportInfo>,
    private: bool,
    importer: Seq<char>,
    m: Seq<char>,
    symbol: Seq<char>,
)
    requires
        chain_goal(ex, private, importer, m, symbol),
    ensures
        ex.dom().contains(m),
{
    if private {
        let p = choose|p: Seq<Seq<char>>|
            is_chain(ex, false, importer, p) && p[0] == m && provides(ex, p.last(), symbol);
        if p.len() > 1 {
            assert(glob_step(ex, false, importer, p[0], p[1]));
        }
    }
}

/// Every module of the map on a chain that starts in a set closed under
/// hops stands in that set.
pub proof fn lemma_closed_under_hops(
    ex: Map<Seq<char>, ModuleExportInfo>,
    private: bool,
    importer: Seq<char>,
    q: Set<Seq<char>>,
    p: Seq<Seq<char>>,
)
    requires
        is_chain(ex, private, importer, p),
        q.contains(p[0]),
        forall|a: Seq<char>, b: Seq<char>|
            q.contains(a) && #[trigger] glob_step(ex, private, importer, a, b) && ex.dom().contains(b)
                ==> q.contains(b),
    ensures
        forall|k: int| 0 <= k < p.len() && ex.dom().contains(p[k]) ==> q.contains(#[trigger] p[k]),
    decreases p.len(),
{
    if p.len() > 1 {
        let r = p.drop_last();
        assert forall|i: int| 0 <= i < r.len() - 1 implies #[trigger] glob_step(
            ex,
            private,
            importer,
            r[i],
            r[i + 1],
        ) by {
            assert(r[i] == p[i] && r[i + 1] == p[i + 1]);
            assert(glob_step(ex, private, importer, p[i], p[i + 1]));
        }
        lemma_closed_under_hops(ex, private, importer, q, r);
        let k = p.len() - 1;
        let h = k - 1;
        assert(glob_step(ex, private, importer, p[h], p[h + 1]));
        assert(r[h] == p[h]);
        assert forall|j: int| 0 <= j < p.len() && ex.dom().contains(p[j]) implies q.contains(
            #[trigger] p[j],
        ) by {
            if j < k {
                assert(r[j] == p[j]);
            }
        }
    }
}

/// Through public globs, [`reaches`] is [`exports_symbol`].
pub proof fn lemma_reaches_public(
    ex: Map<Seq<char>, ModuleExportInfo>,
    importer: Seq<char>,
    start: Seq<char>,
    symbol: Seq<char>,
)
    ensures
        reaches(ex, false, importer, start, symbol) == exports_symbol(ex, importer, start, symbol),
{
    if reaches(ex, false, importer, start, symbol) {
        let p = choose|p: Seq<Seq<char>>|
            is_chain(ex, false, importer, p) && p[0] == start && chain_goal(
                ex,
                false,
                importer,
                p.last(),
                symbol,
            );
        assert(provides(ex, p.last(), symbol));
    }
    if exports_symbol(ex, importer, start, symbol) {
        let p = choose|p: Seq<Seq<char>>|
            is_chain(ex, false, importer, p) && p[0] == start && provides(ex, p.last(), symbol);
        assert(chain_goal(ex, false, importer, p.last(), symbol));
    }
}

/// Whether module `m` provides `symbol`.
fn provides_exec(ex: &StrMap<ModuleExportInfo>, m: &str, symbol: &str) -> (res: bool)
    ensures
        res == provides(ex@, m@, symbol@),
{
    match ex.get(m) {
        None => false,
        Some(info) => info.definitions.contains_key(symbol) || info.explicit_reexports.contains_key(
            symbol,
        ),
    }
}

/// Add to `queue` each entry of `list` that the map holds.
fn enqueue_known(queue: &mut StrSet, list: &Vec<String>, ex: &StrMap<ModuleExportInfo>)
    requires
        old(queue).item_seq().no_duplicates(),
    ensures
        final(queue).item_seq().no_duplicates(),
        final(queue).item_seq().len() >= old(queue).item_seq().len(),
        final(queue).item_seq().take(old(queue).item_seq().len() as int) == old(queue).item_seq(),
        forall|j: int|
            old(queue).item_seq().len() <= j < final(queue).item_seq().len() ==> ex@.dom().contains(
                #[trigger] final(queue).item_seq()[j],
            ) && str_views(list@).contains(final(queue).item_seq()[j]),
        old(queue)@.subset_of(final(queue)@),
        forall|b: Seq<char>|
            str_views(list@).contains(b) && ex@.dom().contains(b) ==> #[trigger] final(queue)@.contains(b),
        unvisited_count(ex.key_seq(), final(queue)@) + final(queue).item_seq().len()
            <= unvisited_count(ex.key_seq(), old(queue)@) + old(queue).item_seq().len(),
{
    let ghost start_seq = queue.item_seq();
    proof {
        ex.lemma_entries();
    }
    let mut e: usize = 0;
    while e < list.len()
        invariant
            e <= list.len(),
            forall|k: Seq<char>| ex@.dom().contains(k) <==> ex.key_seq().contains(k),
            start_seq == old(queue).item_seq(),
            queue.item_seq().no_duplicates(),
            queue.item_seq().len() >= start_seq.len(),
            queue.item_seq().take(start_seq.len() as int) == start_seq,
            forall|j: int|
                start_seq.len() <= j < queue.item_seq().len() ==> ex@.dom().contains(
                    #[trigger] queue.item_seq()[j],
                ) && str_views(list@).contains(queue.item_seq()[j]),
            old(queue)@.subset_of(queue@),
            forall|k: int| 0 <= k < e && ex@.dom().contains(list@[k]@) ==> queue@.contains(
                #[trigger] list@[k]@,
            ),
            unvisited_count(ex.key_seq(), queue@) + queue.item_seq().len() <= unvisited_count(
                ex.key_seq(),
                old(queue)@,
            ) + start_seq.len(),
        decreases list.len() - e,
    {
        let b = &list[e];
        if ex.contains_key(b.as_str()) {
            let ghost before = queue.item_seq();
            let ghost before_set = queue@;
            proof {
                queue.lemma_items();
                lemma_unvisited_insert(ex.key_seq(), before_set, b@);
            }
            let added = queue.insert(b.clone());
            proof {
                assert(str_views(list@)[e as int] == b@);
                if added {
                    assert(queue.item_seq().take(start_seq.len() as int) =~= before.take(
                        start_seq.len() as int,
                    ));
                    assert(!before.contains(b@));
                    assert forall|x: int, y: int|
                        0 <= x < y < queue.item_seq().len() implies queue.item_seq()[x]
                        != queue.item_seq()[y] by {
                        if y == before.len() {
                            assert(before.contains(before[x]));
                        }
                    }
                    assert forall|j: int|
                        start_seq.len() <= j < queue.item_seq().len() implies ex@.dom().contains(
                        #[trigger] queue.item_seq()[j],
                    ) && str_views(list@).contains(queue.item_seq()[j]) by {
                        if j < before.len() {
                            assert(queue.item_seq()[j] == before[j]);
                        }
                    }
                }
            }
        }
        e = e + 1;
    }
    proof {
        assert forall|b: Seq<char>|
            str_views(list@).contains(b) && ex@.dom().contains(b) implies #[trigger] queue@.contains(
            b,
        ) by {
            let k = choose|k: int| 0 <= k < str_views(list@).len() && str_views(list@)[k] == b;
            assert(list@[k]@ == b);
        }
    }
}

/// Whether a chain from `start` reaches [`chain_goal`], searched breadth
/// first over the modules of the map.
fn reaches_exec(
    ex: &StrMap<ModuleExportInfo>,
    start: &str,
    symbol: &str,
    private: bool,
    importer: &str,
) -> (res: bool)
    ensures
        res == reaches(ex@, private, importer@, start@, symbol@),
    decreases if private {
        1int
    } else {
        0int
    },
{
    let mut queue = StrSet::new();
    queue.insert(owned(start));
    proof {
        let p = seq![start@];
        assert(is_chain(ex@, private, importer@, p));
        assert(queue.item_seq() =~= seq![start@]);
    }
    let mut i: usize = 0;
    while i < queue.len()
        invariant
            1 <= queue.item_seq().len(),
            queue.item_seq()[0] == start@,
            i <= queue.item_seq().len(),
            queue.item_seq().no_duplicates(),
            forall|j: int|
                0 <= j < queue.item_seq().len() ==> chained(
                    ex@,
                    private,
                    importer@,
                    start@,
                    #[trigger] queue.item_seq()[j],
                ),
            forall|j: int| 0 <= j < i ==> !chain_goal(ex@, private, importer@, #[trigger] queue.item_seq()[j], symbol@),
            forall|j: int, b: Seq<char>|
                0 <= j < i && #[trigger] glob_step(ex@, private, importer@, queue.item_seq()[j], b)
                    && ex@.dom().contains(b) ==> queue@.contains(b),
        decreases unvisited_count(ex.key_seq(), queue@) + queue.item_seq().len() - i,
    {
        let m = queue.item_at(i).clone();
        let goal = if private {
            let r = reaches_exec(ex, m.as_str(), symbol, false, importer);
            proof {
                lemma_reaches_public(ex@, importer@, m@, symbol@);
            }
            r
        } else {
            provides_exec(ex, m.as_str(), symbol)
        };
        if goal {
            proof {
                let p = choose|p: Seq<Seq<char>>|
                    is_chain(ex@, private, importer@, p) && p[0] == start@ && p.last() == m@;
                assert(chain_goal(ex@, private, importer@, p.last(), symbol@));
            }
            return true;
        }
        let ghost before = queue.item_seq();
        let ghost before_set = queue@;
        match ex.get(m.as_str()) {
            None => {
                assert forall|b: Seq<char>| !glob_step(ex@, private, importer@, m@, b) by {}
            },
            Some(info) => {
                let follow = if private {
                    is_descendant(importer, m.as_str())
                } else {
                    true
                };
                if follow {
                    if private {
                        enqueue_known(&mut queue, &info.private_glob_sources, ex);
                    } else {
                        enqueue_known(&mut queue, &info.glob_sources, ex);
                    }
                    proof {
                        assert forall|j: int|
                            0 <= j < queue.item_seq().len() implies chained(
                            ex@,
                            private,
                            importer@,
                            start@,
                            #[trigger] queue.item_seq()[j],
                        ) by {
                            if j < before.len() {
                                assert(queue.item_seq()[j] == queue.item_seq().take(
                                    before.len() as int,
                                )[j]);
                            } else {
                                let b = queue.item_seq()[j];
                                assert(glob_step(ex@, private, importer@, m@, b));
                                assert(chained(ex@, private, importer@, start@, before[i as int]));
                                let p = choose|p: Seq<Seq<char>>|
                                    is_chain(ex@, private, importer@, p) && p[0] == start@
                                        && p.last() == m@;
                                lemma_chain_push(ex@, private, importer@, p, b);
                                assert(is_chain(ex@, private, importer@, p.push(b)));
                            }
                        }
                    }
                } else {
                    assert forall|b: Seq<char>| !glob_step(ex@, private, importer@, m@, b) by {}
                }
            },
        }
        proof {
            assert forall|j: int| 0 <= j <= i implies queue.item_seq()[j] == before[j] by {
                assert(queue.item_seq()[j] == queue.item_seq().take(before.len() as int)[j]);
            }
            assert(before_set.subset_of(queue@));
            assert(!chain_goal(ex@, private, importer@, queue.item_seq()[i as int], symbol@));
            assert forall|j: int| 0 <= j < i + 1 implies !chain_goal(
                ex@,
                private,
                importer@,
                #[trigger] queue.item_seq()[j],
                symbol@,
            ) by {
                if j < i {
                    assert(queue.item_seq()[j] == before[j]);
                }
            }
            assert forall|j: int, b: Seq<char>|
                0 <= j < i + 1 && #[trigger] glob_step(
                    ex@,
                    private,
                    importer@,
                    queue.item_seq()[j],
                    b,
                ) && ex@.dom().contains(b) implies queue@.contains(b) by {
                if j < i {
                    assert(glob_step(ex@, private, importer@, before[j], b));
                    assert(before_set.contains(b));
                } else {
                    assert(queue.item_seq()[j] == m@);
                }
            }
        }
        i = i + 1;
    }
    proof {
        queue.lemma_items();
        if reaches(ex@, private, importer@, start@, symbol@) {
            let p = choose|p: Seq<Seq<char>>|
                is_chain(ex@, private, importer@, p) && p[0] == start@ && chain_goal(
                    ex@,
                    private,
                    importer@,
                    p.last(),
                    symbol@,
                );
            assert(queue.item_seq()[0] == p[0]);
            assert(queue@.contains(p[0]));
            assert forall|a: Seq<char>, b: Seq<char>|
                queue@.contains(a) && #[trigger] glob_step(ex@, private, importer@, a, b)
                    && ex@.dom().contains(b) implies queue@.contains(b) by {
                let j = choose|j: int| 0 <= j < queue.item_seq().len() && queue.item_seq()[j] == a;
                assert(glob_step(ex@, private, importer@, queue.item_seq()[j], b));
            }
            lemma_closed_under_hops(ex@, private, importer@, queue@, p);
            lemma_goal_in_map(ex@, private, importer@, p.last(), symbol@);
            assert(queue@.contains(p[p.len() - 1]));
            let j = choose|j: int|
                0 <= j < queue.item_seq().len() && queue.item_seq()[j] == p.last();
            assert(!chain_goal(ex@, private, importer@, queue.item_seq()[j], symbol@));
        }
    }
    false
}

/// Whether `module` exports `symbol`: defines it, re-exports it by
/// name, or passes it on through a chain of glob re-exports.
pub fn module_exports_symbol(
    crate_exports: &StrMap<ModuleExportInfo>,
    module: &str,
    symbol: &str,
) -> (res: bool)
    ensures
        res == exports_symbol(crate_exports@, Seq::empty(), module@, symbol@),
{
    let root = "";
    let r = reaches_exec(crate_exports, module, symbol, false, root);
    proof {
        reveal_strlit("");
        assert(root@ =~= Seq::<char>::empty());
        lemma_reaches_public(crate_exports@, Seq::empty(), module@, symbol@);
    }
    r
}

/// Whether `importer_module` can name `symbol` through `module`: what
/// the module exports, plus what the private globs of the modules it
/// descends from forward to it.
pub fn module_scope_holds_symbol(
    crate_exports: &StrMap<ModuleExportInfo>,
    module: &str,
    symbol: &str,
    importer_module: &str,
) -> (res: bool)
    ensures
        res == reaches(crate_exports@, true, importer_module@, module@, symbol@),
{
    reaches_exec(crate_exports, module, symbol, true, importer_module)
}

/// The first index at or after `k` of a glob source from which a chain
/// reaches its goal, or -1.
pub open spec fn first_reaching(
    ex: Map<Seq<char>, ModuleExportInfo>,
    private: bool,
    importer: Seq<char>,
    globs: Seq<Seq<char>>,
    symbol: Seq<char>,
    k: int,
) -> int
    decreases globs.len() - k,
{
    if k < 0 || k >= globs.len() {
        -1
    } else if reaches(ex, private, importer, globs[k], symbol) {
        k
    } else {
        first_reaching(ex, private, importer, globs, symbol, k + 1)
    }
}

/// One step of re-export resolution from `module`, looking up `item`: the
/// module and name to look at next, or `None` where resolution stops.
///
/// A definition stops it. A named re-export leads to its source, under the
/// source's name; so does a private `use` where `importer` descends from
/// the module. Otherwise the first glob source that exports the item, and,
/// for a descendant `importer`, the first private glob source through which
/// it can name the item, lead there.
pub open spec fn reexport_step(
    ex: Map<Seq<char>, ModuleExportInfo>,
    importer: Seq<char>,
    module: Seq<char>,
    item: Seq<char>,
) -> Option<(Seq<char>, Seq<char>)> {
    if !ex.dom().contains(module) {
        None
    } else {
        let info = ex[module];
        if info.definitions@.dom().contains(item) {
            None
        } else if info.explicit_reexports@.dom().contains(item) {
            let t = info.explicit_reexports@[item];
            Some((t.module@, t.original_name@))
        } else if descends(importer, module) && info.private_uses@.dom().contains(item) {
            let t = info.private_uses@[item];
            Some((t.module@, t.original_name@))
        } else {
            let globs = str_views(info.glob_sources@);
            let g = first_reaching(ex, false, importer, globs, item, 0);
            if g >= 0 {
                Some((globs[g], item))
            } else if descends(importer, module) {
                let private_globs = str_views(info.private_glob_sources@);
                let pg = first_reaching(ex, true, importer, private_globs, item, 0);
                if pg >= 0 {
                    Some((private_globs[pg], item))
                } else {
                    None
                }
            } else {
                None
            }
        }
    }
}

/// The module re-export resolution ends at, from `module` looking up
/// `item`, with the modules in `visited` already passed: it stops where a
/// step stops or comes back to a module it passed.
pub open spec fn chase(
    ce: StrMap<ModuleExportInfo>,
    importer: Seq<char>,
    module: Seq<char>,
    item: Seq<char>,
    visited: Set<Seq<char>>,
) -> Seq<char>
    decreases unvisited_count(ce.key_seq(), visited),
{
    if visited.contains(module) {
        module
    } else {
        match reexport_step(ce@, importer, module, item) {
            None => module,
            Some(next) => {
                proof {
                    ce.lemma_entries();
                    lemma_unvisited_insert(ce.key_seq(), visited, module);
                }
                chase(ce, importer, next.0, next.1, visited.insert(module))
            },
        }
    }
}

/// Crate name → (module path → export info). Module paths are
/// crate-relative; the empty path is the crate root.
#[derive(Debug)]
pub struct ReExportMap {
    pub crates: StrMap<StrMap<ModuleExportInfo>>,
}

/// The map built from `entries` inserted in order: a later entry for a
/// crate replaces an earlier one.
pub open spec fn map_of_entries(entries: Seq<(String, StrMap<ModuleExportInfo>)>) -> Map<
    Seq<char>,
    StrMap<ModuleExportInfo>,
>
    decreases entries.len(),
{
    if entries.len() == 0 {
        Map::empty()
    } else {
        map_of_entries(entries.drop_last()).insert(entries.last().0@, entries.last().1)
    }
}

/// The module a dependency resolves to through the map, seen from
/// `importer`: the end of the re-export chain from its module for its item,
/// or its own module where it names no item or the map lacks its crate.
pub open spec fn resolved_module(map: ReExportMap, d: DepView, importer: Seq<char>) -> Seq<char> {
    if map.crates@.dom().contains(d.target_crate) {
        match d.target_item {
            Some(item) => chase(map.crates@[d.target_crate], importer, d.target_module, item, Set::empty()),
            None => d.target_module,
        }
    } else {
        d.target_module
    }
}

impl ReExportMap {
    /// An empty map.
    pub fn new() -> (res: Self)
        ensures
            res.crates@ == Map::<Seq<char>, StrMap<ModuleExportInfo>>::empty(),
    {
        ReExportMap { crates: StrMap::new() }
    }

    /// The map of the given crates.
    pub fn from_entries(entries: Vec<(String, StrMap<ModuleExportInfo>)>) -> (res: Self)
        ensures
            res.crates@ == map_of_entries(entries@),
    {
        let ghost all = entries@;
        let mut crates: StrMap<StrMap<ModuleExportInfo>> = StrMap::new();
        let mut rest = entries;
        let ghost mut taken: Seq<(String, StrMap<ModuleExportInfo>)> = Seq::empty();
        assert(taken + rest@ =~= all);
        while rest.len() > 0
            invariant
                taken + rest@ == all,
                crates@ == map_of_entries(taken),
            decreases rest.len(),
        {
            let ghost before_rest = rest@;
            let e = rest.remove(0);
            proof {
                assert(taken.push(e) + rest@ =~= taken + before_rest);
                assert(taken.push(e).drop_last() =~= taken);
                taken = taken.push(e);
            }
            crates.insert(e.0, e.1);
        }
        assert(taken =~= all);
        ReExportMap { crates }
    }
}

/// The export info of `module` in `krate`, where the map has it.
pub open spec fn module_info_of(map: ReExportMap, krate: Seq<char>, module: Seq<char>) -> Option<ModuleExportInfo> {
    if map.crates@.dom().contains(krate) && map.crates@[krate]@.dom().contains(module) {
        Some(map.crates@[krate]@[module])
    } else {
        None
    }
}

impl ReExportMap {
    /// The modules of `krate`, where the map has the crate.
    pub fn get(&self, krate: &str) -> (res: Option<&StrMap<ModuleExportInfo>>)
        ensures
            res matches Some(m) ==> self.crates@.dom().contains(krate@) && *m == self.crates@[krate@],
            res is None ==> !self.crates@.dom().contains(krate@),
    {
        self.crates.get(krate)
    }

    /// Whether the map has `krate`.
    pub fn contains_key(&self, krate: &str) -> (res: bool)
        ensures
            res == self.crates@.dom().contains(krate@),
    {
        self.crates.contains_key(krate)
    }

    /// The export info of the module a dependency points at, where the map
    /// has it.
    pub fn module_info(&self, dep: &DependencyRef) -> (res: Option<&ModuleExportInfo>)
        ensures
            res matches Some(i) ==> module_info_of(*self, dep.target_crate@, dep.target_module@)
                == Some(*i),
            res is None ==> module_info_of(*self, dep.target_crate@, dep.target_module@) is None,
    {
        match self.crates.get(dep.target_crate.as_str()) {
            None => None,
            Some(modules) => modules.get(dep.target_module.as_str()),
        }
    }
}

/// The first glob source from which a chain reaches its goal.
fn first_reaching_exec(
    ce: &StrMap<ModuleExportInfo>,
    globs: &Vec<String>,
    symbol: &str,
    private: bool,
    importer: &str,
) -> (res: Option<usize>)
    ensures
        res matches Some(g) ==> g < globs.len() && first_reaching(
            ce@,
            private,
            importer@,
            str_views(globs@),
            symbol@,
            0,
        ) == g as int,
        res is None ==> first_reaching(ce@, private, importer@, str_views(globs@), symbol@, 0) == -1,
{
    let mut k: usize = 0;
    while k < globs.len()
        invariant
            k <= globs.len(),
            first_reaching(ce@, private, importer@, str_views(globs@), symbol@, 0) == first_reaching(
                ce@,
                private,
                importer@,
                str_views(globs@),
                symbol@,
                k as int,
            ),
        decreases globs.len() - k,
    {
        assert(str_views(globs@)[k as int] == globs@[k as int]@);
        if reaches_exec(ce, globs[k].as_str(), symbol, private, importer) {
            return Some(k);
        }
        k = k + 1;
    }
    None
}

/// One step of re-export resolution, as [`reexport_step`] states it.
fn reexport_step_exec(ce: &StrMap<ModuleExportInfo>, importer: &str, module: &str, item: &str) -> (res:
    Option<(String, String)>)
    ensures
        res matches Some(next) ==> reexport_step(ce@, importer@, module@, item@) == Some(
            (next.0@, next.1@),
        ),
        res is None ==> reexport_step(ce@, importer@, module@, item@) is None,
{
    let info = match ce.get(module) {
        None => {
            return None;
        },
        Some(info) => info,
    };
    if info.definitions.contains_key(item) {
        return None;
    }
    match info.explicit_reexports.get(item) {
        Some(t) => {
            return Some((t.module.clone(), t.original_name.clone()));
        },
        None => {},
    }
    let below = is_descendant(importer, module);
    if below {
        match info.private_uses.get(item) {
            Some(t) => {
                return Some((t.module.clone(), t.original_name.clone()));
            },
            None => {},
        }
    }
    match first_reaching_exec(ce, &info.glob_sources, item, false, importer) {
        Some(g) => {
            assert(str_views(info.glob_sources@)[g as int] == info.glob_sources@[g as int]@);
            return Some((info.glob_sources[g].clone(), owned(item)));
        },
        None => {},
    }
    if below {
        match first_reaching_exec(ce, &info.private_glob_sources, item, true, importer) {
            Some(g) => {
                assert(str_views(info.private_glob_sources@)[g as int]
                    == info.private_glob_sources@[g as int]@);
                return Some((info.private_glob_sources[g].clone(), owned(item)));
            },
            None => {},
        }
    }
    None
}

/// Resolve re-exports in a dependency: follow the re-export chain from its
/// module until the module that defines the item, and point the dependency
/// there. Nothing changes where the dependency names no item, the map lacks
/// its crate, or no re-export applies; a chain that comes back to a module
/// it passed stops there.
pub fn resolve_reexport(dep: &mut DependencyRef, reexport_map: &ReExportMap, importer_module: &str)
    ensures
        final(dep)@ == (DepView {
            target_module: resolved_module(*reexport_map, old(dep)@, importer_module@),
            ..old(dep)@
        }),
        old(dep).target_item is None ==> final(dep)@ == old(dep)@,
        !reexport_map.crates@.dom().contains(old(dep).target_crate@) ==> final(dep)@ == old(dep)@,
        old(dep).target_item matches Some(item) && module_info_of(
            *reexport_map,
            old(dep).target_crate@,
            old(dep).target_module@,
        ) matches Some(info) && info.definitions@.dom().contains(item@) ==> final(dep)@ == old(dep)@,
{
    let crate_exports = match reexport_map.get(dep.target_crate.as_str()) {
        None => {
            return;
        },
        Some(c) => c,
    };
    let item = match &dep.target_item {
        None => {
            return;
        },
        Some(i) => i.clone(),
    };
    let mut visited = StrSet::new();
    let mut module = dep.target_module.clone();
    let mut name = item;
    loop
        invariant
            dep@ == old(dep)@,
            reexport_map.crates@.dom().contains(dep.target_crate@),
            *crate_exports == reexport_map.crates@[dep.target_crate@],
            dep.target_item == Some(item),
            chase(*crate_exports, importer_module@, module@, name@, visited@) == chase(
                *crate_exports,
                importer_module@,
                dep.target_module@,
                item@,
                Set::empty(),
            ),
        ensures
            visited@.contains(module@),
            chase(*crate_exports, importer_module@, module@, name@, visited@) == chase(
                *crate_exports,
                importer_module@,
                dep.target_module@,
                item@,
                Set::empty(),
            ),
        decreases unvisited_count(crate_exports.key_seq(), visited@),
    {
        let ghost before = visited@;
        if !visited.insert(module.clone()) {
            break;
        }
        match reexport_step_exec(crate_exports, importer_module, module.as_str(), name.as_str()) {
            None => {
                break;
            },
            Some(next) => {
                proof {
                    crate_exports.lemma_entries();
                    lemma_unvisited_insert(crate_exports.key_seq(), before, module@);
                }
                module = next.0;
                name = next.1;
            },
        }
    }
    dep.target_module = module;
}

} // verus!
