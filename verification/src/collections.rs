//! Maps and sets keyed by strings. Entries keep the order they were first
//! inserted in, so every walk over them is deterministic.

use vstd::prelude::*;

verus! {

/// `==` on string slices.
#[verifier::external_body]
pub fn str_eq(a: &str, b: &str) -> (res: bool)
    ensures
        res == (a@ == b@),
{
    a == b
}

/// The first index at or after `i` whose key is `k`, or -1.
pub open spec fn key_index<V>(entries: Seq<(String, V)>, k: Seq<char>, i: int) -> int
    decreases entries.len() - i,
{
    if i < 0 || i >= entries.len() {
        -1
    } else if entries[i].0@ == k {
        i
    } else {
        key_index(entries, k, i + 1)
    }
}

pub proof fn lemma_key_index<V>(entries: Seq<(String, V)>, k: Seq<char>, i: int)
    requires
        0 <= i,
    ensures
        -1 <= key_index(entries, k, i) < entries.len(),
        key_index(entries, k, i) >= 0 ==> i <= key_index(entries, k, i) && entries[key_index(
            entries,
            k,
            i,
        )].0@ == k,
        key_index(entries, k, i) < 0 ==> forall|j: int|
            i <= j < entries.len() ==> entries[j].0@ != k,
        key_index(entries, k, i) >= 0 ==> forall|j: int|
            i <= j < key_index(entries, k, i) ==> entries[j].0@ != k,
    decreases entries.len() - i,
{
    if i >= entries.len() {
    } else if entries[i].0@ == k {
    } else {
        lemma_key_index(entries, k, i + 1);
    }
}

/// Two entry lists with the same keys find every key at the same index.
pub proof fn lemma_key_index_same_keys<V>(a: Seq<(String, V)>, b: Seq<(String, V)>, k: Seq<char>, i: int)
    requires
        0 <= i,
        a.len() == b.len(),
        forall|j: int| 0 <= j < a.len() ==> a[j].0@ == b[j].0@,
    ensures
        key_index(a, k, i) == key_index(b, k, i),
    decreases a.len() - i,
{
    if i < a.len() {
        lemma_key_index_same_keys(a, b, k, i + 1);
    }
}

/// A key found before the end of `a` is found at the same index in any
/// extension of `a`.
pub proof fn lemma_key_index_push<V>(a: Seq<(String, V)>, e: (String, V), k: Seq<char>, i: int)
    requires
        0 <= i <= a.len(),
    ensures
        key_index(a, k, i) >= 0 ==> key_index(a.push(e), k, i) == key_index(a, k, i),
        key_index(a, k, i) < 0 ==> key_index(a.push(e), k, i) == (if e.0@ == k {
            a.len() as int
        } else {
            -1
        }),
    decreases a.len() - i,
{
    if i < a.len() {
        assert(a.push(e)[i] == a[i]);
        lemma_key_index_push(a, e, k, i + 1);
    } else {
        assert(a.push(e)[a.len() as int] == e);
        assert(key_index(a.push(e), k, (a.len() + 1) as int) == -1);
    }
}

/// A map from strings to values.
#[derive(Debug)]
pub struct StrMap<V> {
    pub entries: Vec<(String, V)>,
}

impl<V> View for StrMap<V> {
    type V = Map<Seq<char>, V>;

    open spec fn view(&self) -> Map<Seq<char>, V> {
        Map::new(
            |k: Seq<char>| key_index(self.entries@, k, 0) >= 0,
            |k: Seq<char>| self.entries@[key_index(self.entries@, k, 0)].1,
        )
    }
}

impl<V> StrMap<V> {
    /// The keys in the order they were first inserted.
    pub open spec fn key_seq(&self) -> Seq<Seq<char>> {
        self.entries@.map_values(|e: (String, V)| e.0@)
    }

    /// The values, in the order of `key_seq`.
    pub open spec fn value_seq(&self) -> Seq<V> {
        self.entries@.map_values(|e: (String, V)| e.1)
    }

    /// The number of entries.
    pub open spec fn size(&self) -> nat {
        self.entries@.len()
    }

    /// Every key of the map stands in `key_seq`, and each entry is the map's.
    pub proof fn lemma_entries(&self)
        ensures
            forall|k: Seq<char>| self@.dom().contains(k) <==> self.key_seq().contains(k),
            self.key_seq().len() == self.size(),
            self.value_seq().len() == self.size(),
    {
        assert forall|k: Seq<char>| self@.dom().contains(k) <==> self.key_seq().contains(k) by {
            lemma_key_index(self.entries@, k, 0);
            if self.key_seq().contains(k) {
                let j = choose|j: int| 0 <= j < self.key_seq().len() && self.key_seq()[j] == k;
                assert(self.entries@[j].0@ == k);
            }
            if self@.dom().contains(k) {
                let j = key_index(self.entries@, k, 0);
                assert(self.key_seq()[j] == k);
            }
        }
    }

    /// An empty map.
    pub fn new() -> (res: Self)
        ensures
            res@ == Map::<Seq<char>, V>::empty(),
            res.size() == 0,
    {
        let res = StrMap { entries: Vec::new() };
        assert(res@ =~= Map::<Seq<char>, V>::empty());
        res
    }

    /// The index of `k`'s entry.
    fn index_of(&self, k: &str) -> (res: Option<usize>)
        ensures
            res matches Some(i) ==> i as int == key_index(self.entries@, k@, 0) && i
                < self.entries@.len(),
            res is None ==> key_index(self.entries@, k@, 0) == -1,
    {
        proof {
            lemma_key_index(self.entries@, k@, 0);
        }
        let mut i: usize = 0;
        while i < self.entries.len()
            invariant
                i <= self.entries@.len(),
                key_index(self.entries@, k@, 0) == key_index(self.entries@, k@, i as int),
            decreases self.entries.len() - i,
        {
            if str_eq(self.entries[i].0.as_str(), k) {
                return Some(i);
            }
            i = i + 1;
        }
        None
    }

    /// The value `k` maps to.
    pub fn get(&self, k: &str) -> (res: Option<&V>)
        ensures
            res matches Some(v) ==> self@.dom().contains(k@) && *v == self@[k@],
            res is None ==> !self@.dom().contains(k@),
    {
        match self.index_of(k) {
            Some(i) => Some(&self.entries[i].1),
            None => None,
        }
    }

    /// Whether `k` is a key.
    pub fn contains_key(&self, k: &str) -> (res: bool)
        ensures
            res == self@.dom().contains(k@),
    {
        self.index_of(k).is_some()
    }

    /// Map `k` to `v`, replacing what `k` mapped to.
    pub fn insert(&mut self, k: String, v: V)
        ensures
            final(self)@ == old(self)@.insert(k@, v),
            final(self).size() <= old(self).size() + 1,
    {
        let ghost old_entries = self.entries@;
        let ghost kv = k@;
        match self.index_of(k.as_str()) {
            Some(i) => {
                self.entries.set(i, (k, v));
                proof {
                    lemma_key_index(old_entries, kv, 0);
                    assert forall|j: int| 0 <= j < old_entries.len() implies old_entries[j].0@
                        == self.entries@[j].0@ by {}
                    assert forall|q: Seq<char>|
                        #![trigger key_index(self.entries@, q, 0)]
                        key_index(self.entries@, q, 0) == key_index(old_entries, q, 0) by {
                        lemma_key_index_same_keys(self.entries@, old_entries, q, 0);
                    }
                    assert forall|q: Seq<char>|
                        #![trigger key_index(old_entries, q, 0)]
                        key_index(old_entries, q, 0) >= 0 && q != kv implies self.entries@[key_index(
                            old_entries,
                            q,
                            0,
                        )].1 == old_entries[key_index(old_entries, q, 0)].1 by {
                        lemma_key_index(old_entries, q, 0);
                    }
                    assert(self@ =~= old(self)@.insert(kv, v));
                }
            },
            None => {
                self.entries.push((k, v));
                proof {
                    assert forall|q: Seq<char>|
                        #![trigger key_index(self.entries@, q, 0)]
                        key_index(self.entries@, q, 0) == (if key_index(old_entries, q, 0) >= 0 {
                            key_index(old_entries, q, 0)
                        } else if q == kv {
                            old_entries.len() as int
                        } else {
                            -1
                        }) by {
                        lemma_key_index_push(old_entries, self.entries@.last(), q, 0);
                        assert(self.entries@ =~= old_entries.push(self.entries@.last()));
                    }
                    assert forall|j: int| 0 <= j < old_entries.len() implies self.entries@[j]
                        == old_entries[j] by {}
                    assert forall|q: Seq<char>|
                        #![trigger key_index(old_entries, q, 0)]
                        key_index(old_entries, q, 0) >= 0 implies key_index(old_entries, q, 0)
                        < old_entries.len() by {
                        lemma_key_index(old_entries, q, 0);
                    }
                    assert(self@ =~= old(self)@.insert(kv, v));
                }
            },
        }
    }

    /// Put `v` in place of what `k` maps to, and hand that back; nothing
    /// changes where `k` is no key.
    pub fn replace(&mut self, k: &str, v: V) -> (res: Option<V>)
        ensures
            match res {
                Some(old_v) => old(self)@.dom().contains(k@) && old_v == old(self)@[k@]
                    && final(self)@ == old(self)@.insert(k@, v),
                None => !old(self)@.dom().contains(k@) && final(self)@ == old(self)@,
            },
            final(self).key_seq() == old(self).key_seq(),
    {
        let ghost old_entries = self.entries@;
        let ghost kv = k@;
        match self.index_of(k) {
            Some(i) => {
                let (key, old_v) = self.entries.remove(i);
                self.entries.insert(i, (key, v));
                proof {
                    lemma_key_index(old_entries, kv, 0);
                    assert(self.entries@ =~= old_entries.update(i as int, (old_entries[i as int].0, v)));
                    assert forall|j: int| 0 <= j < old_entries.len() implies old_entries[j].0@
                        == self.entries@[j].0@ by {}
                    assert forall|q: Seq<char>|
                        #![trigger key_index(self.entries@, q, 0)]
                        key_index(self.entries@, q, 0) == key_index(old_entries, q, 0) by {
                        lemma_key_index_same_keys(self.entries@, old_entries, q, 0);
                    }
                    assert forall|q: Seq<char>|
                        #![trigger key_index(old_entries, q, 0)]
                        key_index(old_entries, q, 0) >= 0 && q != kv implies self.entries@[key_index(
                            old_entries,
                            q,
                            0,
                        )].1 == old_entries[key_index(old_entries, q, 0)].1 by {
                        lemma_key_index(old_entries, q, 0);
                    }
                    assert(self@ =~= old(self)@.insert(kv, v));
                    assert(self.key_seq() =~= old(self).key_seq());
                }
                Some(old_v)
            },
            None => None,
        }
    }

    /// Whether the map has no entry.
    pub fn is_empty(&self) -> (res: bool)
        ensures
            res == (self@.dom() == Set::<Seq<char>>::empty()),
            res == (self.size() == 0),
    {
        proof {
            self.lemma_entries();
            if self.size() > 0 {
                assert(self.key_seq().contains(self.key_seq()[0]));
                assert(self@.dom().contains(self.key_seq()[0]));
            } else {
                assert(self@.dom() =~= Set::<Seq<char>>::empty());
            }
        }
        self.entries.len() == 0
    }

    /// The number of entries.
    pub fn len(&self) -> (res: usize)
        ensures
            res == self.size(),
    {
        self.entries.len()
    }

    /// The key of the `i`-th entry.
    pub fn key_at(&self, i: usize) -> (res: &String)
        requires
            i < self.size(),
        ensures
            res@ == self.key_seq()[i as int],
    {
        &self.entries[i].0
    }

    /// The value of the `i`-th entry.
    pub fn value_at(&self, i: usize) -> (res: &V)
        requires
            i < self.size(),
        ensures
            *res == self.value_seq()[i as int],
    {
        &self.entries[i].1
    }
}

/// A set of strings.
#[derive(Debug)]
pub struct StrSet {
    pub items: Vec<String>,
}

/// Whether `k` stands among the first `n` strings of `s`.
pub open spec fn str_in(s: Seq<String>, k: Seq<char>) -> bool {
    exists|i: int| 0 <= i < s.len() && s[i]@ == k
}

impl View for StrSet {
    type V = Set<Seq<char>>;

    open spec fn view(&self) -> Set<Seq<char>> {
        Set::new(|k: Seq<char>| str_in(self.items@, k))
    }
}

impl StrSet {
    /// The members in the order they were first inserted.
    pub open spec fn item_seq(&self) -> Seq<Seq<char>> {
        self.items@.map_values(|s: String| s@)
    }

    /// An empty set.
    pub fn new() -> (res: Self)
        ensures
            res@ == Set::<Seq<char>>::empty(),
            res.item_seq().len() == 0,
    {
        let res = StrSet { items: Vec::new() };
        assert(res@ =~= Set::<Seq<char>>::empty());
        res
    }

    /// Whether `k` is a member.
    pub fn contains(&self, k: &str) -> (res: bool)
        ensures
            res == self@.contains(k@),
    {
        let mut i: usize = 0;
        while i < self.items.len()
            invariant
                i <= self.items@.len(),
                forall|j: int| 0 <= j < i ==> self.items@[j]@ != k@,
            decreases self.items.len() - i,
        {
            if str_eq(self.items[i].as_str(), k) {
                return true;
            }
            i = i + 1;
        }
        false
    }

    /// Add `k`; whether it was new.
    pub fn insert(&mut self, k: String) -> (res: bool)
        ensures
            final(self)@ == old(self)@.insert(k@),
            res == !old(self)@.contains(k@),
            res ==> final(self).item_seq() == old(self).item_seq().push(k@),
            !res ==> final(self).item_seq() == old(self).item_seq(),
    {
        if self.contains(k.as_str()) {
            return false;
        }
        let ghost old_items = self.items@;
        self.items.push(k);
        proof {
            assert forall|q: Seq<char>| str_in(self.items@, q) <==> (str_in(old_items, q) || q
                == self.items@.last()@) by {
                if str_in(self.items@, q) {
                    let j = choose|j: int| 0 <= j < self.items@.len() && self.items@[j]@ == q;
                    if j < old_items.len() {
                        assert(old_items[j] == self.items@[j]);
                    }
                }
                if str_in(old_items, q) {
                    let j = choose|j: int| 0 <= j < old_items.len() && old_items[j]@ == q;
                    assert(self.items@[j] == old_items[j]);
                }
                if q == self.items@.last()@ {
                    assert(self.items@[self.items@.len() - 1]@ == q);
                }
            }
            assert(self@ =~= old(self)@.insert(self.items@.last()@));
            assert(self.item_seq() =~= old(self).item_seq().push(self.items@.last()@));
        }
        true
    }

    /// The number of members.
    pub fn len(&self) -> (res: usize)
        ensures
            res == self.item_seq().len(),
    {
        self.items.len()
    }

    /// Whether the set has no member.
    pub fn is_empty(&self) -> (res: bool)
        ensures
            res == (self@ == Set::<Seq<char>>::empty()),
    {
        if self.items.len() == 0 {
            assert(self@ =~= Set::<Seq<char>>::empty());
            true
        } else {
            assert(self@.contains(self.items@[0]@));
            false
        }
    }

    /// The `i`-th member in insertion order.
    pub fn item_at(&self, i: usize) -> (res: &String)
        requires
            i < self.item_seq().len(),
        ensures
            res@ == self.item_seq()[i as int],
    {
        &self.items[i]
    }

    /// Every member stands in `item_seq`.
    pub proof fn lemma_items(&self)
        ensures
            forall|k: Seq<char>| self@.contains(k) <==> self.item_seq().contains(k),
    {
        assert forall|k: Seq<char>| self@.contains(k) <==> self.item_seq().contains(k) by {
            if self@.contains(k) {
                let j = choose|j: int| 0 <= j < self.items@.len() && self.items@[j]@ == k;
                assert(self.item_seq()[j] == k);
            }
            if self.item_seq().contains(k) {
                let j = choose|j: int| 0 <= j < self.item_seq().len() && self.item_seq()[j] == k;
                assert(self.items@[j]@ == k);
            }
        }
    }
}

} // verus!
