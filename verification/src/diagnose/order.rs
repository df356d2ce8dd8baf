//! Ordering elementary cycles into display blocks. Generic over the node
//! type, so the ordering is stated without any graph.

use vstd::prelude::*;

verus! {

/// The rank `rank` gives `n`.
pub open spec fn ranked<N, F: Fn(N) -> usize>(rank: F, n: N) -> usize {
    choose|r: usize| call_ensures(rank, (n,), r)
}

/// Whether `rank` can be called on every node and gives each node one rank.
pub open spec fn rank_is_function<N, F: Fn(N) -> usize>(rank: F) -> bool {
    &&& forall|n: N| call_requires(rank, (n,))
    &&& forall|n: N, r1: usize, r2: usize|
        #![trigger call_ensures(rank, (n,), r1), call_ensures(rank, (n,), r2)]
        call_ensures(rank, (n,), r1) && call_ensures(rank, (n,), r2) ==> r1 == r2
}

/// The ranks of a sequence of nodes.
pub open spec fn ranks_of<N, F: Fn(N) -> usize>(rank: F, s: Seq<N>) -> Seq<usize> {
    s.map_values(|n: N| ranked(rank, n))
}

/// Whether `p` is the first position of a smallest rank.
pub open spec fn is_first_min(r: Seq<usize>, p: int) -> bool {
    &&& 0 <= p < r.len()
    &&& forall|j: int| 0 <= j < r.len() ==> r[p] <= #[trigger] r[j]
    &&& forall|j: int| 0 <= j < p ==> r[p] < #[trigger] r[j]
}

/// The first position of a smallest rank.
pub open spec fn min_pos(r: Seq<usize>) -> int {
    choose|p: int| is_first_min(r, p)
}

/// A non-empty rank sequence has one first position of a smallest rank.
pub proof fn lemma_min_pos(r: Seq<usize>, p: int)
    requires
        is_first_min(r, p),
    ensures
        min_pos(r) == p,
{
    let q = min_pos(r);
    assert(is_first_min(r, q));
    if q < p {
        assert(r[p] < r[q]);
    } else if p < q {
        assert(r[q] < r[p]);
    }
}

/// A non-empty rank sequence has a first position of a smallest rank.
pub proof fn lemma_first_min_exists(r: Seq<usize>)
    requires
        r.len() > 0,
    ensures
        is_first_min(r, min_pos(r)),
    decreases r.len(),
{
    let q = r.drop_last();
    let last = r.len() - 1;
    if q.len() == 0 {
        lemma_min_pos(r, 0);
    } else {
        lemma_first_min_exists(q);
        let m = min_pos(q);
        if r[last] < q[m] {
            assert forall|j: int| 0 <= j < last implies r[last] < #[trigger] r[j] by {
                assert(q[j] == r[j]);
            }
            lemma_min_pos(r, last);
        } else {
            assert forall|j: int| 0 <= j < r.len() implies r[m] <= #[trigger] r[j] by {
                if j < last {
                    assert(q[j] == r[j]);
                }
            }
            assert forall|j: int| 0 <= j < m implies r[m] < #[trigger] r[j] by {
                assert(q[j] == r[j]);
            }
            lemma_min_pos(r, m);
        }
    }
}

/// Whether `b` is cycle `c` read from position `p` round to `p`, where `p`
/// holds the smallest rank of `c` and no earlier position does.
pub open spec fn read_from_first_min<N, F: Fn(N) -> usize>(rank: F, c: Seq<N>, p: int, b: Seq<N>) -> bool {
    &&& 0 <= p < c.len()
    &&& b == c.skip(p) + c.take(p)
    &&& forall|q: int| 0 <= q < c.len() ==> ranked(rank, c[p]) <= ranked(rank, #[trigger] c[q])
    &&& forall|q: int| 0 <= q < p ==> ranked(rank, c[p]) < ranked(rank, #[trigger] c[q])
}

/// A cycle rotated to start at its first rank-smallest node, direction
/// kept.
pub open spec fn rotation_of<N, F: Fn(N) -> usize>(rank: F, cycle: Seq<N>) -> Seq<N> {
    let p = min_pos(ranks_of(rank, cycle));
    cycle.skip(p) + cycle.take(p)
}

/// Whether `b` is one of the cycles read from its first smallest rank.
pub open spec fn is_cycle_read_from_first_min<N, F: Fn(N) -> usize>(rank: F, cycles: Seq<Vec<N>>, b: Seq<N>) -> bool {
    exists|j: int, p: int| 0 <= j < cycles.len() && #[trigger] read_from_first_min(rank, cycles[j]@, p, b)
}

/// A non-empty cycle's rotation reads it from its first smallest rank.
pub proof fn lemma_rotation_shape<N, F: Fn(N) -> usize>(rank: F, c: Seq<N>)
    requires
        c.len() > 0,
    ensures
        read_from_first_min(rank, c, min_pos(ranks_of(rank, c)), rotation_of(rank, c)),
{
    let r = ranks_of(rank, c);
    lemma_first_min_exists(r);
    let p = min_pos(r);
    assert forall|q: int| 0 <= q < c.len() implies ranked(rank, c[p]) <= ranked(rank, #[trigger] c[q]) by {
        assert(r[q] == ranked(rank, c[q]) && r[p] == ranked(rank, c[p]));
    }
    assert forall|q: int| 0 <= q < p implies ranked(rank, c[p]) < ranked(rank, #[trigger] c[q]) by {
        assert(r[q] == ranked(rank, c[q]) && r[p] == ranked(rank, c[p]));
    }
}

/// Each cycle rotated to start at its first rank-smallest node.
pub open spec fn rotations<N, F: Fn(N) -> usize>(rank: F, cycles: Seq<Vec<N>>) -> Seq<Seq<N>> {
    cycles.map_values(|c: Vec<N>| rotation_of(rank, c@))
}

/// Whether rank sequence `a` comes before `b`, element by element and a
/// proper prefix first.
pub open spec fn ranks_less(a: Seq<usize>, b: Seq<usize>) -> bool
    decreases a.len(),
{
    if a.len() == 0 {
        b.len() > 0
    } else if b.len() == 0 {
        false
    } else if a[0] != b[0] {
        a[0] < b[0]
    } else {
        ranks_less(a.drop_first(), b.drop_first())
    }
}

/// The sort key of a block: the rank it starts at, its length, the ranks of
/// the rest.
pub open spec fn block_key<N, F: Fn(N) -> usize>(rank: F, b: Seq<N>) -> (usize, int, Seq<usize>) {
    (ranked(rank, b[0]), b.len() as int, ranks_of(rank, b.drop_first()))
}

/// Whether key `a` comes before key `b`: lexicographic over the three.
pub open spec fn key_less(a: (usize, int, Seq<usize>), b: (usize, int, Seq<usize>)) -> bool {
    ||| a.0 < b.0
    ||| a.0 == b.0 && a.1 < b.1
    ||| a.0 == b.0 && a.1 == b.1 && ranks_less(a.2, b.2)
}

/// Whether the blocks stand in key order.
pub open spec fn sorted_by_key<N, F: Fn(N) -> usize>(rank: F, blocks: Seq<Seq<N>>) -> bool {
    forall|i: int, j: int|
        0 <= i < j < blocks.len() ==> !key_less(
            block_key(rank, #[trigger] blocks[j]),
            block_key(rank, #[trigger] blocks[i]),
        )
}

/// The blocks with key `k`, in order.
pub open spec fn with_key<N, F: Fn(N) -> usize>(
    rank: F,
    blocks: Seq<Seq<N>>,
    k: (usize, int, Seq<usize>),
) -> Seq<Seq<N>> {
    blocks.filter(|b: Seq<N>| block_key(rank, b) == k)
}

pub proof fn lemma_ranks_less_irreflexive(a: Seq<usize>)
    ensures
        !ranks_less(a, a),
    decreases a.len(),
{
    if a.len() > 0 {
        lemma_ranks_less_irreflexive(a.drop_first());
    }
}

pub proof fn lemma_ranks_less_transitive(a: Seq<usize>, b: Seq<usize>, c: Seq<usize>)
    requires
        ranks_less(a, b),
        ranks_less(b, c),
    ensures
        ranks_less(a, c),
    decreases a.len(),
{
    if a.len() > 0 && b.len() > 0 && c.len() > 0 && a[0] == b[0] && b[0] == c[0] {
        lemma_ranks_less_transitive(a.drop_first(), b.drop_first(), c.drop_first());
    }
}

pub proof fn lemma_ranks_less_total(a: Seq<usize>, b: Seq<usize>)
    ensures
        a == b || ranks_less(a, b) || ranks_less(b, a),
    decreases a.len(),
{
    if a.len() > 0 && b.len() > 0 && a[0] == b[0] {
        lemma_ranks_less_total(a.drop_first(), b.drop_first());
        if a.drop_first() == b.drop_first() {
            assert(a =~= seq![a[0]] + a.drop_first());
            assert(b =~= seq![b[0]] + b.drop_first());
        }
    } else if a.len() == 0 && b.len() == 0 {
        assert(a =~= b);
    }
}

/// Keys are totally and strictly ordered.
pub proof fn lemma_key_order(a: (usize, int, Seq<usize>), b: (usize, int, Seq<usize>), c: (usize, int, Seq<usize>))
    ensures
        !key_less(a, a),
        a == b || key_less(a, b) || key_less(b, a),
        key_less(a, b) && key_less(b, c) ==> key_less(a, c),
        key_less(a, b) ==> !key_less(b, a),
{
    lemma_ranks_less_irreflexive(a.2);
    lemma_ranks_less_total(a.2, b.2);
    if key_less(a, b) && key_less(b, c) && a.0 == b.0 && b.0 == c.0 && a.1 == b.1 && b.1 == c.1 {
        lemma_ranks_less_transitive(a.2, b.2, c.2);
    }
    if key_less(a, b) && key_less(b, a) {
        if a.0 == b.0 && a.1 == b.1 {
            lemma_ranks_less_transitive(a.2, b.2, a.2);
        }
    }
}

/// The blocks of a list of vectors.
pub open spec fn block_views<N>(v: Seq<Vec<N>>) -> Seq<Seq<N>> {
    v.map_values(|b: Vec<N>| b@)
}

/// The blocks of a list of blocks with their keys.
pub open spec fn entry_views<N>(v: Seq<(Vec<N>, (usize, usize, Vec<usize>))>) -> Seq<Seq<N>> {
    v.map_values(|e: (Vec<N>, (usize, usize, Vec<usize>))| e.0@)
}

/// The rank of `n`, by calling `rank`.
fn rank_at<N, F: Fn(N) -> usize>(rank: &F, n: N) -> (res: usize)
    requires
        rank_is_function(*rank),
    ensures
        res == ranked(*rank, n),
{
    let r = rank(n);
    proof {
        let c = choose|q: usize| call_ensures(*rank, (n,), q);
        assert(call_ensures(*rank, (n,), c));
    }
    r
}

/// Rotate `cycle` so it starts at its rank-smallest node (the first such),
/// preserving direction.
fn rotate_to_min<N: Copy, F: Fn(N) -> usize>(cycle: &Vec<N>, rank: &F) -> (res: Vec<N>)
    requires
        rank_is_function(*rank),
        cycle.len() > 0,
    ensures
        res@ == rotation_of(*rank, cycle@),
        res@.len() == cycle@.len(),
{
    let ghost r = ranks_of(*rank, cycle@);
    let mut best: usize = 0;
    let mut best_rank = rank_at(rank, cycle[0]);
    let mut i: usize = 1;
    while i < cycle.len()
        invariant
            1 <= i <= cycle.len(),
            best < i,
            r == ranks_of(*rank, cycle@),
            rank_is_function(*rank),
            best_rank == r[best as int],
            forall|j: int| 0 <= j < i ==> r[best as int] <= #[trigger] r[j],
            forall|j: int| 0 <= j < best ==> r[best as int] < #[trigger] r[j],
        decreases cycle.len() - i,
    {
        let ri = rank_at(rank, cycle[i]);
        if ri < best_rank {
            best = i;
            best_rank = ri;
        }
        i = i + 1;
    }
    let mut res: Vec<N> = Vec::new();
    let mut k = best;
    while k < cycle.len()
        invariant
            best <= k <= cycle.len(),
            res@ == cycle@.subrange(best as int, k as int),
        decreases cycle.len() - k,
    {
        res.push(cycle[k]);
        k = k + 1;
        assert(res@ =~= cycle@.subrange(best as int, k as int));
    }
    let mut k: usize = 0;
    while k < best
        invariant
            k <= best < cycle.len(),
            res@ == cycle@.skip(best as int) + cycle@.take(k as int),
        decreases best - k,
    {
        res.push(cycle[k]);
        k = k + 1;
        assert(res@ =~= cycle@.skip(best as int) + cycle@.take(k as int));
    }
    assert(is_first_min(r, best as int));
    proof {
        lemma_min_pos(r, best as int);
    }
    res
}

/// The sort key of a block, by calling `rank`.
fn key_of<N: Copy, F: Fn(N) -> usize>(block: &Vec<N>, rank: &F) -> (res: (usize, usize, Vec<usize>))
    requires
        rank_is_function(*rank),
        block.len() > 0,
    ensures
        (res.0, res.1 as int, res.2@) == block_key(*rank, block@),
{
    let first = rank_at(rank, block[0]);
    let mut rest: Vec<usize> = Vec::new();
    let mut i: usize = 1;
    while i < block.len()
        invariant
            1 <= i <= block.len(),
            rank_is_function(*rank),
            rest@ == ranks_of(*rank, block@.drop_first()).take(i - 1),
        decreases block.len() - i,
    {
        let r = rank_at(rank, block[i]);
        rest.push(r);
        proof {
            assert(block@.drop_first()[i - 1] == block@[i as int]);
            assert(ranks_of(*rank, block@.drop_first()).take(i as int) =~= ranks_of(
                *rank,
                block@.drop_first(),
            ).take(i - 1).push(r));
        }
        i = i + 1;
    }
    assert(ranks_of(*rank, block@.drop_first()).take(i - 1) =~= ranks_of(*rank, block@.drop_first()));
    (first, block.len(), rest)
}

/// Whether rank sequence `a` comes before `b`.
fn ranks_before(a: &Vec<usize>, b: &Vec<usize>) -> (res: bool)
    ensures
        res == ranks_less(a@, b@),
{
    let mut k: usize = 0;
    assert(a@.skip(0) =~= a@);
    assert(b@.skip(0) =~= b@);
    while k < a.len() && k < b.len() && a[k] == b[k]
        invariant
            k <= a.len(),
            k <= b.len(),
            ranks_less(a@, b@) == ranks_less(a@.skip(k as int), b@.skip(k as int)),
        decreases a.len() - k,
    {
        assert(a@.skip(k as int).drop_first() =~= a@.skip(k + 1));
        assert(b@.skip(k as int).drop_first() =~= b@.skip(k + 1));
        k = k + 1;
    }
    if k == a.len() {
        k < b.len()
    } else if k == b.len() {
        false
    } else {
        a[k] < b[k]
    }
}

/// Whether key `a` comes before key `b`.
fn key_before(a: &(usize, usize, Vec<usize>), b: &(usize, usize, Vec<usize>)) -> (res: bool)
    ensures
        res == key_less((a.0, a.1 as int, a.2@), (b.0, b.1 as int, b.2@)),
{
    a.0 < b.0 || (a.0 == b.0 && a.1 < b.1) || (a.0 == b.0 && a.1 == b.1 && ranks_before(&a.2, &b.2))
}

/// Inserting after every block whose key is not greater keeps the blocks
/// sorted and puts the new block last among those of its key.
proof fn lemma_insert_sorted<N, F: Fn(N) -> usize>(rank: F, s: Seq<Seq<N>>, x: Seq<N>, p: int)
    requires
        sorted_by_key(rank, s),
        0 <= p <= s.len(),
        forall|i: int| 0 <= i < p ==> !key_less(block_key(rank, x), block_key(rank, #[trigger] s[i])),
        p < s.len() ==> key_less(block_key(rank, x), block_key(rank, s[p])),
    ensures
        sorted_by_key(rank, s.insert(p, x)),
        forall|k: (usize, int, Seq<usize>)|
            #[trigger] with_key(rank, s.insert(p, x), k) == if block_key(rank, x) == k {
                with_key(rank, s, k).push(x)
            } else {
                with_key(rank, s, k)
            },
{
    let t = s.insert(p, x);
    let kx = block_key(rank, x);
    assert forall|j: int| p <= j < s.len() implies key_less(kx, block_key(rank, #[trigger] s[j])) by {
        if j > p {
            assert(!key_less(block_key(rank, s[j]), block_key(rank, s[p])));
            lemma_key_order(block_key(rank, s[p]), block_key(rank, s[j]), kx);
            lemma_key_order(kx, block_key(rank, s[p]), block_key(rank, s[j]));
        }
    }
    assert forall|i: int, j: int| 0 <= i < j < t.len() implies !key_less(
        block_key(rank, #[trigger] t[j]),
        block_key(rank, #[trigger] t[i]),
    ) by {
        if j < p {
            assert(t[i] == s[i] && t[j] == s[j]);
        } else if j == p {
            assert(t[i] == s[i] && t[j] == x);
        } else if i == p {
            assert(t[j] == s[j - 1]);
            lemma_key_order(kx, block_key(rank, s[j - 1]), kx);
        } else if i < p {
            assert(t[i] == s[i] && t[j] == s[j - 1]);
        } else {
            assert(t[i] == s[i - 1] && t[j] == s[j - 1]);
        }
    }
    assert forall|k: (usize, int, Seq<usize>)|
        #[trigger] with_key(rank, t, k) == if kx == k {
            with_key(rank, s, k).push(x)
        } else {
            with_key(rank, s, k)
        } by {
        let pred = |b: Seq<N>| block_key(rank, b) == k;
        let head = s.take(p);
        let tail = s.skip(p);
        assert(s =~= head + tail);
        assert(t =~= head.push(x) + tail);
        Seq::filter_distributes_over_add(head, tail, pred);
        Seq::filter_distributes_over_add(head.push(x), tail, pred);
        head.lemma_filter_push(x, pred);
        if kx == k {
            assert forall|j: int| 0 <= j < tail.len() implies !pred(#[trigger] tail[j]) by {
                assert(tail[j] == s[p + j]);
                assert(key_less(kx, block_key(rank, s[p + j])));
                lemma_key_order(kx, kx, kx);
            }
            tail.lemma_all_neg_filter_empty(pred);
            assert(tail.filter(pred) =~= Seq::<Seq<N>>::empty());
        }
        assert(with_key(rank, t, k) == t.filter(pred));
        assert(with_key(rank, s, k) == s.filter(pred));
    }
}

/// Of two rank sequences of one length, where the second does not come
/// before the first, they are equal or first differ where the first is
/// smaller.
pub proof fn lemma_ranks_not_less(a: Seq<usize>, b: Seq<usize>)
    requires
        a.len() == b.len(),
        !ranks_less(b, a),
    ensures
        a == b || exists|p: int| 0 <= p < a.len() && #[trigger] a.take(p) == b.take(p) && a[p] < b[p],
    decreases a.len(),
{
    if a.len() == 0 {
        assert(a =~= b);
    } else if a[0] != b[0] {
        assert(a.take(0) =~= b.take(0));
    } else {
        let a1 = a.drop_first();
        let b1 = b.drop_first();
        lemma_ranks_not_less(a1, b1);
        if a1 == b1 {
            assert(a =~= b) by {
                assert forall|i: int| 0 <= i < a.len() implies a[i] == b[i] by {
                    if i > 0 {
                        assert(a[i] == a1[i - 1] && b[i] == b1[i - 1]);
                    }
                }
            }
        } else {
            let p = choose|p: int| 0 <= p < a1.len() && #[trigger] a1.take(p) == b1.take(p) && a1[p] < b1[p];
            assert(a.take(p + 1) =~= b.take(p + 1)) by {
                assert forall|i: int| 0 <= i < p + 1 implies a[i] == b[i] by {
                    if i > 0 {
                        assert(a1.take(p)[i - 1] == b1.take(p)[i - 1]);
                    }
                }
            }
            assert(a[p + 1] == a1[p] && b[p + 1] == b1[p]);
        }
    }
}

/// Blocks in key order start at ranks that never decrease, whatever their
/// lengths; among blocks starting at the same rank, the shorter comes first.
pub proof fn lemma_sorted_blocks_start_order<N, F: Fn(N) -> usize>(rank: F, blocks: Seq<Seq<N>>)
    requires
        sorted_by_key(rank, blocks),
    ensures
        forall|i: int, j: int|
            0 <= i < j < blocks.len() ==> ranked(rank, (#[trigger] blocks[i])[0]) <= ranked(rank, (#[trigger] blocks[j])[0]),
        forall|i: int, j: int|
            0 <= i < j < blocks.len() && ranked(rank, (#[trigger] blocks[i])[0]) == ranked(rank, (#[trigger] blocks[j])[0])
                ==> blocks[i].len() <= blocks[j].len(),
        forall|i: int, j: int|
            0 <= i < j < blocks.len() && ranked(rank, (#[trigger] blocks[i])[0]) == ranked(rank, (#[trigger] blocks[j])[0])
                && blocks[i].len() == blocks[j].len() && blocks[i].len() > 0 ==> ({
                let a = ranks_of(rank, blocks[i].drop_first());
                let b = ranks_of(rank, blocks[j].drop_first());
                a == b || exists|p: int| 0 <= p < a.len() && #[trigger] a.take(p) == b.take(p) && a[p] < b[p]
            }),
{
    assert forall|i: int, j: int| 0 <= i < j < blocks.len() implies ranked(rank, (#[trigger] blocks[i])[0]) <= ranked(
        rank,
        (#[trigger] blocks[j])[0],
    ) && (ranked(rank, blocks[i][0]) == ranked(rank, blocks[j][0]) ==> blocks[i].len() <= blocks[j].len()) by {
        assert(!key_less(block_key(rank, blocks[j]), block_key(rank, blocks[i])));
    }
    assert forall|i: int, j: int|
        0 <= i < j < blocks.len() && ranked(rank, (#[trigger] blocks[i])[0]) == ranked(rank, (#[trigger] blocks[j])[0])
            && blocks[i].len() == blocks[j].len() && blocks[i].len() > 0 implies ({
            let a = ranks_of(rank, blocks[i].drop_first());
            let b = ranks_of(rank, blocks[j].drop_first());
            a == b || exists|p: int| 0 <= p < a.len() && #[trigger] a.take(p) == b.take(p) && a[p] < b[p]
        }) by {
        assert(!key_less(block_key(rank, blocks[j]), block_key(rank, blocks[i])));
        lemma_ranks_not_less(ranks_of(rank, blocks[i].drop_first()), ranks_of(rank, blocks[j].drop_first()));
    }
}

/// Blocks with the same blocks per key as the cycles' rotations are each
/// a cycle read from its first smallest rank.
pub proof fn lemma_blocks_are_rotations<N, F: Fn(N) -> usize>(rank: F, cycles: Seq<Vec<N>>, blocks: Seq<Seq<N>>)
    requires
        forall|i: int| 0 <= i < cycles.len() ==> (#[trigger] cycles[i]).len() > 0,
        forall|k: (usize, int, Seq<usize>)| #[trigger] with_key(rank, blocks, k) == with_key(rank, rotations(rank, cycles), k),
    ensures
        forall|i: int| 0 <= i < blocks.len() ==> is_cycle_read_from_first_min(rank, cycles, #[trigger] blocks[i]),
{
    let rots = rotations(rank, cycles);
    assert forall|i: int| 0 <= i < blocks.len() implies is_cycle_read_from_first_min(rank, cycles, #[trigger] blocks[i]) by {
        let b = blocks[i];
        let k = block_key(rank, b);
        let pred = |x: Seq<N>| block_key(rank, x) == k;
        blocks.lemma_filter_contains(pred, i);
        assert(with_key(rank, blocks, k) == blocks.filter(pred));
        assert(with_key(rank, rots, k) == rots.filter(pred));
        assert(rots.filter(pred).contains(b));
        rots.lemma_filter_contains_rev(pred, b);
        let j = choose|j: int| 0 <= j < rots.len() && rots[j] == b;
        assert(rots[j] == rotation_of(rank, cycles[j]@));
        lemma_rotation_shape(rank, cycles[j]@);
        assert(read_from_first_min(rank, cycles[j]@, min_pos(ranks_of(rank, cycles[j]@)), blocks[i]));
    }
}

/// Rotate each cycle to start at its rank-smallest node, then sort the
/// resulting blocks by start rank, then length, then the ranks of the rest
/// lexicographically, so a reader can walk the blocks top to bottom in the
/// same order the nodes appear in the diagram. The sort is stable: blocks
/// with equal keys keep their order.
pub fn order_cycle_blocks<N: Copy, F: Fn(N) -> usize>(cycles: &[Vec<N>], rank: F) -> (res: Vec<Vec<N>>)
    requires
        rank_is_function(rank),
        forall|i: int| 0 <= i < cycles@.len() ==> (#[trigger] cycles@[i]).len() > 0,
    ensures
        res@.len() == cycles@.len(),
        sorted_by_key(rank, block_views(res@)),
        forall|k: (usize, int, Seq<usize>)|
            #[trigger] with_key(rank, block_views(res@), k) == with_key(rank, rotations(rank, cycles@), k),
        forall|i: int, j: int|
            0 <= i < j < res@.len() ==> ranked(rank, (#[trigger] res@[i])@[0]) <= ranked(rank, (#[trigger] res@[j])@[0]),
        forall|i: int, j: int|
            0 <= i < j < res@.len() && ranked(rank, (#[trigger] res@[i])@[0]) == ranked(rank, (#[trigger] res@[j])@[0])
                ==> res@[i]@.len() <= res@[j]@.len(),
        forall|i: int, j: int|
            0 <= i < j < res@.len() && ranked(rank, (#[trigger] res@[i])@[0]) == ranked(rank, (#[trigger] res@[j])@[0])
                && res@[i]@.len() == res@[j]@.len() && res@[i]@.len() > 0 ==> ({
                let a = ranks_of(rank, res@[i]@.drop_first());
                let b = ranks_of(rank, res@[j]@.drop_first());
                a == b || exists|p: int| 0 <= p < a.len() && #[trigger] a.take(p) == b.take(p) && a[p] < b[p]
            }),
        forall|i: int| 0 <= i < res@.len() ==> is_cycle_read_from_first_min(rank, cycles@, (#[trigger] res@[i])@),
{
    let ghost mut rotated: Seq<Seq<N>> = Seq::empty();
    let mut sorted: Vec<(Vec<N>, (usize, usize, Vec<usize>))> = Vec::new();
    let mut i: usize = 0;
    while i < cycles.len()
        invariant
            i <= cycles@.len(),
            rank_is_function(rank),
            forall|j: int| 0 <= j < cycles@.len() ==> (#[trigger] cycles@[j]).len() > 0,
            rotated.len() == i,
            sorted@.len() == i,
            rotated == rotations(rank, cycles@.take(i as int)),
            forall|j: int|
                0 <= j < sorted@.len() ==> (#[trigger] sorted@[j]).0@.len() > 0 && (
                sorted@[j].1.0,
                sorted@[j].1.1 as int,
                sorted@[j].1.2@,
            ) == block_key(rank, sorted@[j].0@),
            sorted_by_key(rank, entry_views(sorted@)),
            forall|k: (usize, int, Seq<usize>)|
                #[trigger] with_key(
                    rank,
                    entry_views(sorted@),
                    k,
                ) == with_key(rank, rotated, k),
        decreases cycles.len() - i,
    {
        let block = rotate_to_min(&cycles[i], &rank);
        let key = key_of(&block, &rank);
        let ghost bv = block@;
        let ghost views = entry_views(sorted@);
        let mut p: usize = 0;
        while p < sorted.len() && !key_before(&key, &sorted[p].1)
            invariant
                p <= sorted@.len(),
                views == entry_views(sorted@),
                (key.0, key.1 as int, key.2@) == block_key(rank, bv),
                forall|j: int|
                    0 <= j < sorted@.len() ==> (#[trigger] sorted@[j]).0@.len() > 0 && (
                    sorted@[j].1.0,
                    sorted@[j].1.1 as int,
                    sorted@[j].1.2@,
                ) == block_key(rank, sorted@[j].0@),
                forall|j: int| 0 <= j < p ==> !key_less(block_key(rank, bv), block_key(rank, #[trigger] views[j])),
            decreases sorted.len() - p,
        {
            assert(views[p as int] == sorted@[p as int].0@);
            p = p + 1;
        }
        proof {
            if p < sorted@.len() {
                assert(views[p as int] == sorted@[p as int].0@);
            }
            lemma_insert_sorted(rank, views, bv, p as int);
            let ghost old_rotated = rotated;
            rotated = rotated.push(bv);
            assert(rotated.drop_last() =~= old_rotated);
            assert forall|k: (usize, int, Seq<usize>)|
                #[trigger] with_key(rank, rotated, k) == if block_key(rank, bv) == k {
                    with_key(rank, rotated.drop_last(), k).push(bv)
                } else {
                    with_key(rank, rotated.drop_last(), k)
                } by {
                let pred = |b: Seq<N>| block_key(rank, b) == k;
                rotated.drop_last().lemma_filter_push(bv, pred);
                assert(rotated.drop_last().push(bv) =~= rotated);
            }
        }
        let ghost old_sorted = sorted@;
        sorted.insert(p, (block, key));
        proof {
            assert(entry_views(sorted@) =~= views.insert(
                p as int,
                bv,
            ));
            assert(rotated =~= rotations(rank, cycles@.take(i + 1)));
            assert forall|k: (usize, int, Seq<usize>)|
                #[trigger] with_key(rank, entry_views(sorted@), k) == with_key(rank, rotated, k) by {
                assert(with_key(rank, views.insert(p as int, bv), k) == if block_key(rank, bv) == k {
                    with_key(rank, views, k).push(bv)
                } else {
                    with_key(rank, views, k)
                });
                assert(with_key(rank, views, k) == with_key(rank, rotated.drop_last(), k));
                assert(with_key(rank, rotated, k) == if block_key(rank, bv) == k {
                    with_key(rank, rotated.drop_last(), k).push(bv)
                } else {
                    with_key(rank, rotated.drop_last(), k)
                });
            }
            assert forall|j: int|
                0 <= j < sorted@.len() implies (#[trigger] sorted@[j]).0@.len() > 0 && (
                sorted@[j].1.0,
                sorted@[j].1.1 as int,
                sorted@[j].1.2@,
            ) == block_key(rank, sorted@[j].0@) by {
                if j < p {
                    assert(sorted@[j] == old_sorted[j]);
                } else if j > p {
                    assert(sorted@[j] == old_sorted[j - 1]);
                }
            }
        }
        i = i + 1;
    }
    let mut res: Vec<Vec<N>> = Vec::new();
    let ghost views = entry_views(sorted@);
    let total = sorted.len();
    assert(views.len() == total);
    let mut rest = sorted;
    let mut k: usize = 0;
    while rest.len() > 0
        invariant
            k + rest@.len() == views.len(),
            views.len() <= usize::MAX,
            entry_views(rest@) == views.skip(k as int),
            block_views(res@) == views.take(k as int),
        decreases rest.len(),
    {
        let ghost before = rest@;
        let e = rest.remove(0);
        proof {
            assert(e.0@ == entry_views(before)[0]);
            assert(entry_views(rest@) =~= entry_views(before).drop_first());
            assert(views.skip(k as int).drop_first() =~= views.skip(k + 1));
        }
        let ghost before_res = res@;
        res.push(e.0);
        proof {
            assert(block_views(res@) =~= block_views(before_res).push(
                views[k as int],
            ));
            assert(views.take(k + 1) =~= views.take(k as int).push(views[k as int]));
        }
        k = k + 1;
    }
    assert(views.take(k as int) =~= views);
    assert(cycles@.take(cycles@.len() as int) =~= cycles@);
    proof {
        let bv = block_views(res@);
        lemma_sorted_blocks_start_order(rank, bv);
        assert forall|i: int, j: int| 0 <= i < j < res@.len() implies ranked(rank, (#[trigger] res@[i])@[0]) <= ranked(
            rank,
            (#[trigger] res@[j])@[0],
        ) && (ranked(rank, res@[i]@[0]) == ranked(rank, res@[j]@[0]) ==> res@[i]@.len() <= res@[j]@.len()) by {
            assert(bv[i] == res@[i]@ && bv[j] == res@[j]@);
        }
        assert forall|i: int, j: int|
            0 <= i < j < res@.len() && ranked(rank, (#[trigger] res@[i])@[0]) == ranked(rank, (#[trigger] res@[j])@[0])
                && res@[i]@.len() == res@[j]@.len() && res@[i]@.len() > 0 implies ({
                let a = ranks_of(rank, res@[i]@.drop_first());
                let b = ranks_of(rank, res@[j]@.drop_first());
                a == b || exists|p: int| 0 <= p < a.len() && #[trigger] a.take(p) == b.take(p) && a[p] < b[p]
            }) by {
            assert(bv[i] == res@[i]@ && bv[j] == res@[j]@);
        }
        lemma_blocks_are_rotations(rank, cycles@, bv);
        assert forall|i: int| 0 <= i < res@.len() implies is_cycle_read_from_first_min(rank, cycles@, (#[trigger] res@[i])@) by {
            assert(bv[i] == res@[i]@);
        }
    }
    res
}

} // verus!
