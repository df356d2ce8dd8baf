//! The order of strings by their chars, as `str`'s `Ord` gives it, and
//! lists of names kept strictly sorted.

use vstd::prelude::*;

verus! {

/// Whether `a` comes before `b`: at the first char where they differ, `a`'s
/// is smaller, or `a` is a proper prefix of `b`.
pub open spec fn seq_less(a: Seq<char>, b: Seq<char>) -> bool
    decreases a.len(),
{
    if a.len() == 0 {
        b.len() > 0
    } else if b.len() == 0 {
        false
    } else if a[0] != b[0] {
        a[0] < b[0]
    } else {
        seq_less(a.drop_first(), b.drop_first())
    }
}

/// Each name comes before every later one.
pub open spec fn strictly_sorted(s: Seq<Seq<char>>) -> bool {
    forall|i: int, j: int| 0 <= i < j < s.len() ==> seq_less(#[trigger] s[i], #[trigger] s[j])
}

pub proof fn lemma_less_irreflexive(a: Seq<char>)
    ensures
        !seq_less(a, a),
    decreases a.len(),
{
    if a.len() > 0 {
        lemma_less_irreflexive(a.drop_first());
    }
}

pub proof fn lemma_less_transitive(a: Seq<char>, b: Seq<char>, c: Seq<char>)
    requires
        seq_less(a, b),
        seq_less(b, c),
    ensures
        seq_less(a, c),
    decreases a.len(),
{
    if a.len() > 0 && b.len() > 0 && c.len() > 0 && a[0] == b[0] && b[0] == c[0] {
        lemma_less_transitive(a.drop_first(), b.drop_first(), c.drop_first());
    }
}

pub proof fn lemma_less_total(a: Seq<char>, b: Seq<char>)
    ensures
        a == b || seq_less(a, b) || seq_less(b, a),
    decreases a.len(),
{
    if a.len() > 0 && b.len() > 0 && a[0] == b[0] {
        lemma_less_total(a.drop_first(), b.drop_first());
        if a.drop_first() == b.drop_first() {
            assert(a =~= seq![a[0]] + a.drop_first());
            assert(b =~= seq![b[0]] + b.drop_first());
        }
    } else if a.len() == 0 && b.len() == 0 {
        assert(a =~= b);
    }
}

pub proof fn lemma_less_asymmetric(a: Seq<char>, b: Seq<char>)
    requires
        seq_less(a, b),
    ensures
        !seq_less(b, a),
{
    if seq_less(b, a) {
        lemma_less_transitive(a, b, a);
        lemma_less_irreflexive(a);
    }
}

/// Whether `a` comes before `b`.
pub fn less_than(a: &Vec<char>, b: &Vec<char>) -> (res: bool)
    ensures
        res == seq_less(a@, b@),
{
    let mut k: usize = 0;
    assert(a@.skip(0) =~= a@);
    assert(b@.skip(0) =~= b@);
    while k < a.len() && k < b.len() && a[k] == b[k]
        invariant
            k <= a.len(),
            k <= b.len(),
            seq_less(a@, b@) == seq_less(a@.skip(k as int), b@.skip(k as int)),
        decreases a.len() - k,
    {
        assert(a@.skip(k as int).drop_first() =~= a@.skip(k + 1));
        assert(b@.skip(k as int).drop_first() =~= b@.skip(k + 1));
        k = k + 1;
    }
    if k == a.len() {
        k < b.len()
    } else if k == b.len() {
        false
    } else {
        a[k] < b[k]
    }
}

/// Insert `s` into a strictly sorted list of names where it is not there.
pub fn insert_sorted(v: &mut Vec<String>, s: String)
    requires
        strictly_sorted(old(v)@.map_values(|x: String| x@)),
    ensures
        strictly_sorted(final(v)@.map_values(|x: String| x@)),
        final(v)@.map_values(|x: String| x@).to_set() == old(v)@.map_values(|x: String| x@).to_set().insert(
            s@,
        ),
{
    let ghost old_views = v@.map_values(|x: String| x@);
    let sc = crate::text::chars_of(s.as_str());
    let mut i: usize = 0;
    while i < v.len() && less_than(&crate::text::chars_of(v[i].as_str()), &sc)
        invariant
            i <= v.len(),
            sc@ == s@,
            old_views == v@.map_values(|x: String| x@),
            forall|j: int| 0 <= j < i ==> seq_less(#[trigger] old_views[j], s@),
        decreases v.len() - i,
    {
        i = i + 1;
    }
    if i < v.len() && crate::collections::str_eq(v[i].as_str(), s.as_str()) {
        proof {
            assert(old_views[i as int] == s@);
            assert(old_views.to_set().insert(s@) =~= old_views.to_set());
        }
        return;
    }
    let ghost sv = s@;
    v.insert(i, s);
    proof {
        let nv = v@.map_values(|x: String| x@);
        assert(nv =~= old_views.insert(i as int, sv));
        if i < old_views.len() {
            assert(!seq_less(old_views[i as int], sv));
            assert(old_views[i as int] != sv);
            lemma_less_total(old_views[i as int], sv);
        }
        assert forall|x: int, y: int| 0 <= x < y < nv.len() implies seq_less(
            #[trigger] nv[x],
            #[trigger] nv[y],
        ) by {
            if y < i {
                assert(nv[x] == old_views[x] && nv[y] == old_views[y]);
            } else if y == i {
                assert(nv[x] == old_views[x]);
            } else if x == i {
                assert(nv[y] == old_views[y - 1]);
                if y - 1 > i {
                    lemma_less_transitive(sv, old_views[i as int], old_views[y - 1]);
                }
            } else if x < i {
                assert(nv[x] == old_views[x]);
                assert(nv[y] == old_views[y - 1]);
            } else {
                assert(nv[x] == old_views[x - 1]);
                assert(nv[y] == old_views[y - 1]);
            }
        }
        assert(nv.to_set() =~= old_views.to_set().insert(sv)) by {
            assert forall|q: Seq<char>| nv.to_set().contains(q) <==> old_views.to_set().insert(
                sv,
            ).contains(q) by {
                if nv.to_set().contains(q) {
                    let k = choose|k: int| 0 <= k < nv.len() && nv[k] == q;
                    if k < i {
                        assert(old_views[k] == q);
                    } else if k > i {
                        assert(old_views[k - 1] == q);
                    }
                }
                if old_views.to_set().contains(q) {
                    let k = choose|k: int| 0 <= k < old_views.len() && old_views[k] == q;
                    if k < i {
                        assert(nv[k] == q);
                    } else {
                        assert(nv[k + 1] == q);
                    }
                }
                if q == sv {
                    assert(nv[i as int] == sv);
                }
            }
        }
    }
}

/// Two strictly sorted lists of the same names are the same list.
pub proof fn lemma_sorted_unique(x: Seq<Seq<char>>, y: Seq<Seq<char>>)
    requires
        strictly_sorted(x),
        strictly_sorted(y),
        x.to_set() == y.to_set(),
    ensures
        x == y,
    decreases x.len(),
{
    if x.len() == 0 {
        if y.len() > 0 {
            assert(y.to_set().contains(y[0]));
        }
        assert(x =~= y);
    } else if y.len() == 0 {
        assert(x.to_set().contains(x[0]));
    } else {
        assert(x.to_set().contains(x[0]));
        assert(y.to_set().contains(y[0]));
        let j = choose|j: int| 0 <= j < y.len() && y[j] == x[0];
        let i = choose|i: int| 0 <= i < x.len() && x[i] == y[0];
        if j > 0 {
            assert(seq_less(y[0], y[j]));
            if i > 0 {
                assert(seq_less(x[0], x[i]));
                lemma_less_asymmetric(y[0], x[0]);
            } else {
                lemma_less_irreflexive(y[0]);
            }
        }
        let xs = x.drop_first();
        let ys = y.drop_first();
        assert(strictly_sorted(xs)) by {
            assert forall|a: int, b: int| 0 <= a < b < xs.len() implies seq_less(#[trigger] xs[a], #[trigger] xs[b]) by {
                assert(xs[a] == x[a + 1] && xs[b] == x[b + 1]);
            }
        }
        assert(strictly_sorted(ys)) by {
            assert forall|a: int, b: int| 0 <= a < b < ys.len() implies seq_less(#[trigger] ys[a], #[trigger] ys[b]) by {
                assert(ys[a] == y[a + 1] && ys[b] == y[b + 1]);
            }
        }
        assert forall|e: Seq<char>| xs.to_set().contains(e) <==> ys.to_set().contains(e) by {
            if xs.to_set().contains(e) {
                let k = choose|k: int| 0 <= k < xs.len() && xs[k] == e;
                assert(x[k + 1] == e);
                assert(seq_less(x[0], x[k + 1]));
                lemma_less_irreflexive(e);
                assert(x.to_set().contains(e));
                let m = choose|m: int| 0 <= m < y.len() && y[m] == e;
                assert(m != 0);
                assert(ys[m - 1] == e);
            }
            if ys.to_set().contains(e) {
                let k = choose|k: int| 0 <= k < ys.len() && ys[k] == e;
                assert(y[k + 1] == e);
                assert(seq_less(y[0], y[k + 1]));
                lemma_less_irreflexive(e);
                assert(y.to_set().contains(e));
                let m = choose|m: int| 0 <= m < x.len() && x[m] == e;
                assert(m != 0);
                assert(xs[m - 1] == e);
            }
        }
        assert(xs.to_set() =~= ys.to_set());
        lemma_sorted_unique(xs, ys);
        assert(x =~= seq![x[0]] + xs);
        assert(y =~= seq![y[0]] + ys);
    }
}

/// The names of `s`, strictly sorted.
pub open spec fn sorted_of(s: Set<Seq<char>>) -> Seq<Seq<char>> {
    choose|q: Seq<Seq<char>>| strictly_sorted(q) && q.to_set() == s
}

/// A strictly sorted list of a set's names is the set's sorted list.
pub proof fn lemma_sorted_of(q: Seq<Seq<char>>, s: Set<Seq<char>>)
    requires
        strictly_sorted(q),
        q.to_set() == s,
    ensures
        sorted_of(s) == q,
{
    let r = sorted_of(s);
    assert(strictly_sorted(r) && r.to_set() == s);
    lemma_sorted_unique(r, q);
}

/// A finite set of names that is not empty has a last name.
pub proof fn lemma_greatest_exists(s: Set<Seq<char>>) -> (m: Seq<char>)
    requires
        s.finite(),
        s.len() > 0,
    ensures
        s.contains(m),
        forall|x: Seq<char>| #[trigger] s.contains(x) && x != m ==> seq_less(x, m),
    decreases s.len(),
{
    let a = s.choose();
    let rest = s.remove(a);
    if rest.len() == 0 {
        assert forall|x: Seq<char>| #[trigger] s.contains(x) && x != a implies seq_less(x, a) by {
            assert(rest.contains(x));
        }
        a
    } else {
        let m = lemma_greatest_exists(rest);
        lemma_less_total(a, m);
        if seq_less(a, m) {
            assert forall|x: Seq<char>| #[trigger] s.contains(x) && x != m implies seq_less(x, m) by {
                if x != a {
                    assert(rest.contains(x));
                }
            }
            m
        } else {
            assert forall|x: Seq<char>| #[trigger] s.contains(x) && x != a implies seq_less(x, a) by {
                assert(rest.contains(x));
                if x != m {
                    lemma_less_transitive(x, m, a);
                }
            }
            a
        }
    }
}

/// A finite set of names has its sorted list, as long as the set.
pub proof fn lemma_sorted_exists(s: Set<Seq<char>>)
    requires
        s.finite(),
    ensures
        strictly_sorted(sorted_of(s)),
        sorted_of(s).to_set() == s,
        sorted_of(s).len() == s.len(),
    decreases s.len(),
{
    if s.len() == 0 {
        let q = Seq::<Seq<char>>::empty();
        assert(q.to_set() =~= s) by {
            assert forall|x: Seq<char>| !#[trigger] s.contains(x) by {
                if s.contains(x) {
                    assert(s.remove(x).len() == s.len() - 1);
                }
            }
        }
        lemma_sorted_of(q, s);
    } else {
        let m = lemma_greatest_exists(s);
        let rest = s.remove(m);
        lemma_sorted_exists(rest);
        let r = sorted_of(rest);
        let q = r.push(m);
        assert forall|i: int, j: int| 0 <= i < j < q.len() implies seq_less(#[trigger] q[i], #[trigger] q[j]) by {
            if j == q.len() - 1 {
                assert(r.to_set().contains(r[i]));
                assert(q[i] == r[i]);
            } else {
                assert(q[i] == r[i] && q[j] == r[j]);
            }
        }
        assert forall|x: Seq<char>| #[trigger] q.to_set().contains(x) == s.contains(x) by {
            if s.contains(x) {
                if x == m {
                    assert(q[q.len() - 1] == x);
                } else {
                    assert(r.to_set().contains(x));
                    let i = choose|i: int| 0 <= i < r.len() && r[i] == x;
                    assert(q[i] == x);
                }
            }
            if q.to_set().contains(x) {
                let i = choose|i: int| 0 <= i < q.len() && q[i] == x;
                if i < r.len() {
                    assert(r[i] == x);
                    assert(r.to_set().contains(x));
                }
            }
        }
        assert(q.to_set() =~= s);
        lemma_sorted_of(q, s);
    }
}

/// Whether the numbers ascend strictly.
pub open spec fn increasing(s: Seq<usize>) -> bool {
    forall|i: int, j: int| 0 <= i < j < s.len() ==> s[i] < s[j]
}

/// Insert `x` into a strictly ascending list where it is not there.
pub fn insert_line(v: &mut Vec<usize>, x: usize)
    requires
        increasing(old(v)@),
    ensures
        increasing(final(v)@),
        final(v)@.to_set() == old(v)@.to_set().insert(x),
{
    let mut i: usize = 0;
    while i < v.len() && v[i] < x
        invariant
            i <= v@.len(),
            forall|j: int| 0 <= j < i ==> v@[j] < x,
        decreases v.len() - i,
    {
        i = i + 1;
    }
    if i < v.len() && v[i] == x {
        assert(v@.to_set().insert(x) =~= v@.to_set());
        return;
    }
    let ghost before = v@;
    v.insert(i, x);
    proof {
        assert(v@ == before.insert(i as int, x));
        assert forall|a: int, b: int| 0 <= a < b < v@.len() implies v@[a] < v@[b] by {
            if b < i {
                assert(v@[a] == before[a] && v@[b] == before[b]);
            } else if b == i {
                assert(v@[a] == before[a]);
            } else if a < i {
                assert(v@[a] == before[a] && v@[b] == before[b - 1]);
                assert(before[a] < x);
                assert(x < before[i as int] || before[i as int] == x || x <= before[i as int]);
                assert(before[i as int] <= before[b - 1]);
            } else if a == i {
                assert(v@[b] == before[b - 1]);
                assert(before[i as int] >= x && before[i as int] != x);
                assert(before[i as int] <= before[b - 1]);
            } else {
                assert(v@[a] == before[a - 1] && v@[b] == before[b - 1]);
            }
        }
        assert forall|e: usize| v@.to_set().contains(e) <==> before.to_set().insert(x).contains(e) by {
            if v@.to_set().contains(e) {
                let q = choose|q: int| 0 <= q < v@.len() && v@[q] == e;
                if q < i {
                    assert(before[q] == e);
                } else if q > i {
                    assert(before[q - 1] == e);
                }
            }
            if before.to_set().contains(e) {
                let q = choose|q: int| 0 <= q < before.len() && before[q] == e;
                if q < i {
                    assert(v@[q] == e);
                } else {
                    assert(v@[q + 1] == e);
                }
            }
            if e == x {
                assert(v@[i as int] == e);
            }
        }
        assert(v@.to_set() =~= before.to_set().insert(x));
    }
}

} // verus!
