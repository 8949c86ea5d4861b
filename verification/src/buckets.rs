//! The mathematical model of a table of buckets: what map a sequence of buckets holds, and
//! the facts about it that the map operations rely on.
use vstd::prelude::*;

use crate::int_key::IntKey;
use crate::prim_int::SealedInt;

verus! {

/// The buckets of a table, each as a sequence of key/value pairs.
pub type Buckets<K, V> = Seq<Seq<(K, V)>>;

/// `(i, j)` names a pair of the table.
pub open spec fn valid_pos<K, V>(bs: Buckets<K, V>, i: int, j: int) -> bool {
    0 <= i < bs.len() && 0 <= j < bs[i].len()
}

/// The table holds the pair `(k, v)`.
pub open spec fn has_pair<K, V>(bs: Buckets<K, V>, k: K, v: V) -> bool {
    exists|i: int, j: int| valid_pos(bs, i, j) && #[trigger] bs[i][j] == (k, v)
}

/// The table holds a pair with key `k`.
pub open spec fn has_key<K, V>(bs: Buckets<K, V>, k: K) -> bool {
    exists|i: int, j: int| valid_pos(bs, i, j) && #[trigger] bs[i][j].0 == k
}

/// The map that the table stands for.
pub open spec fn map_of<K, V>(bs: Buckets<K, V>) -> Map<K, V> {
    Map::new(|k: K| has_key(bs, k), |k: K| choose|v: V| has_pair(bs, k, v))
}

/// No key occurs twice in the table.
pub open spec fn keys_unique<K, V>(bs: Buckets<K, V>) -> bool {
    forall|i1: int, j1: int, i2: int, j2: int|
        #![trigger bs[i1][j1], bs[i2][j2]]
        valid_pos(bs, i1, j1) && valid_pos(bs, i2, j2) && bs[i1][j1].0 == bs[i2][j2].0 ==> i1
            == i2 && j1 == j2
}

/// The bucket that key `k` belongs to in a table whose mask is `mask`.
pub open spec fn bucket_index<K: IntKey>(k: K, mask: usize) -> int {
    k.int_of().spec_calc_index(mask, K::PRIME) as int
}

/// The bucket of each key in a table whose mask is `mask`.
pub open spec fn slot_fn<K: IntKey>(mask: usize) -> spec_fn(K) -> int {
    |k: K| bucket_index(k, mask)
}

/// The buckets of a table whose mask keeps some of the bits of another's are the other's
/// buckets, masked again.
pub proof fn lemma_slot_submask<K: IntKey>(m1: usize, m2: usize)
    requires
        m1 & m2 == m1,
    ensures
        forall|k: K| 0 <= #[trigger] slot_fn::<K>(m1)(k) <= m1,
        forall|k: K| #[trigger] slot_fn::<K>(m1)(k) == (|j: int| ((j as usize) & m1) as int)(
            slot_fn::<K>(m2)(k),
        ),
{
    assert forall|k: K| #[trigger] slot_fn::<K>(m1)(k) == (|j: int| ((j as usize) & m1) as int)(
        slot_fn::<K>(m2)(k),
    ) && 0 <= slot_fn::<K>(m1)(k) <= m1 by {
        k.int_of().lemma_calc_index_submask(m1, m2, K::PRIME);
        k.int_of().lemma_calc_index_bounded(m1, K::PRIME);
    }
}

/// Every pair sits in the bucket of its key.
pub open spec fn placed<K: IntKey, V>(bs: Buckets<K, V>, mask: usize) -> bool {
    forall|i: int, j: int| valid_pos(bs, i, j) ==> bucket_index(#[trigger] bs[i][j].0, mask) == i
}

/// The number of pairs in the table.
pub open spec fn total<K, V>(bs: Buckets<K, V>) -> nat
    decreases bs.len(),
{
    if bs.len() == 0 {
        0
    } else {
        total(bs.drop_last()) + bs.last().len()
    }
}

/// The sequences that a vector of vectors holds.
pub open spec fn seqs_of<K, V>(cache: Seq<Vec<(K, V)>>) -> Buckets<K, V> {
    Seq::new(cache.len(), |i: int| cache[i]@)
}

/// A table of `n` buckets that holds the pairs of `bs`, each pair in the bucket `slot` gives its
/// key, and within a bucket the pairs in the order that `entries(bs)` lists them.
pub open spec fn rehashed<K, V>(bs: Buckets<K, V>, n: nat, slot: spec_fn(K) -> int) -> Buckets<K, V> {
    grouped(entries(bs), n, slot)
}

/// `n` buckets holding the pairs of `s`, each in the bucket `slot` gives its key, in order.
pub open spec fn grouped<K, V>(s: Seq<(K, V)>, n: nat, slot: spec_fn(K) -> int) -> Buckets<K, V> {
    Seq::new(n, |j: int| s.filter(in_slot(slot, j)))
}

/// The pairs whose key `slot` sends to bucket `j`.
pub open spec fn in_slot<K, V>(slot: spec_fn(K) -> int, j: int) -> spec_fn((K, V)) -> bool {
    |kv: (K, V)| slot(kv.0) == j
}

/// Filtering keeps nothing of a list none of whose elements passes.
pub proof fn lemma_filter_none<A>(s: Seq<A>, p: spec_fn(A) -> bool)
    requires
        forall|i: int| 0 <= i < s.len() ==> !p(#[trigger] s[i]),
    ensures
        s.filter(p) == Seq::<A>::empty(),
    decreases s.len(),
{
    reveal(Seq::filter);
    if s.len() > 0 {
        let t = s.drop_last();
        assert forall|i: int| 0 <= i < t.len() implies !p(#[trigger] t[i]) by {
            assert(t[i] == s[i]);
        }
        lemma_filter_none(t, p);
        assert(!p(s[s.len() - 1]));
    } else {
        assert(s.filter(p) =~= Seq::<A>::empty());
    }
}

/// Filtering by a weaker condition first changes nothing.
pub proof fn lemma_filter_filter<A>(s: Seq<A>, q: spec_fn(A) -> bool, p: spec_fn(A) -> bool)
    requires
        forall|x: A| #[trigger] p(x) ==> q(x),
    ensures
        s.filter(q).filter(p) == s.filter(p),
    decreases s.len(),
{
    reveal(Seq::filter);
    if s.len() > 0 {
        let t = s.drop_last();
        let x = s.last();
        lemma_filter_filter(t, q, p);
        if q(x) {
            let a = t.filter(q);
            assert(a.push(x).drop_last() =~= a);
            assert(a.push(x).last() == x);
        }
    } else {
        assert(s.filter(q) =~= s);
    }
}

/// A table none of whose pairs passes `p` lists no pair that passes it.
pub proof fn lemma_entries_filter_none<K, V>(bs: Buckets<K, V>, p: spec_fn((K, V)) -> bool)
    requires
        forall|t: int, m: int| valid_pos(bs, t, m) ==> !p(#[trigger] bs[t][m]),
    ensures
        entries(bs).filter(p) == Seq::<(K, V)>::empty(),
{
    let e = entries(bs);
    assert forall|q: int| 0 <= q < e.len() implies !p(#[trigger] e[q]) by {
        lemma_entries_from(bs, q);
        let (t, m) = choose|t: int, m: int| valid_pos(bs, t, m) && flat_index(bs, t, m) == q && e[q] == bs[t][m];
        assert(!p(bs[t][m]));
    }
    lemma_filter_none(e, p);
}

/// When only bucket `i` holds pairs that pass `p`, the list of pairs passes what it does.
pub proof fn lemma_entries_filter_one<K, V>(bs: Buckets<K, V>, i: int, p: spec_fn((K, V)) -> bool)
    requires
        0 <= i < bs.len(),
        forall|t: int, m: int| valid_pos(bs, t, m) && t != i ==> !p(#[trigger] bs[t][m]),
    ensures
        entries(bs).filter(p) == bs[i].filter(p),
    decreases bs.len(),
{
    let init = bs.drop_last();
    let n = bs.len() - 1;
    Seq::filter_distributes_over_add(entries(init), bs.last(), p);
    if i == n {
        assert forall|t: int, m: int| valid_pos(init, t, m) implies !p(#[trigger] init[t][m]) by {
            assert(init[t] == bs[t]);
            assert(valid_pos(bs, t, m));
        }
        lemma_entries_filter_none(init, p);
        assert(entries(bs).filter(p) =~= bs[i].filter(p));
    } else {
        assert forall|t: int, m: int| valid_pos(init, t, m) && t != i implies !p(#[trigger] init[t][m]) by {
            assert(init[t] == bs[t]);
            assert(valid_pos(bs, t, m));
        }
        lemma_entries_filter_one(init, i, p);
        assert forall|m: int| 0 <= m < bs.last().len() implies !p(#[trigger] bs.last()[m]) by {
            assert(valid_pos(bs, n, m));
        }
        lemma_filter_none(bs.last(), p);
        assert(init[i] == bs[i]);
        assert(entries(bs).filter(p) =~= bs[i].filter(p));
    }
}

/// Grouping the pairs by a coarser slot first, then by a finer one, is grouping them by the
/// finer one: the coarse slot of a key is a function `f` of its fine slot.
pub proof fn lemma_rehashed_twice<K, V>(
    bs: Buckets<K, V>,
    n1: nat,
    s1: spec_fn(K) -> int,
    n2: nat,
    s2: spec_fn(K) -> int,
    f: spec_fn(int) -> int,
)
    requires
        forall|k: K| 0 <= #[trigger] s1(k) < n1,
        forall|k: K| #[trigger] s1(k) == f(s2(k)),
    ensures
        rehashed(rehashed(bs, n1, s1), n2, s2) == rehashed(bs, n2, s2),
{
    let e = entries(bs);
    let g1 = rehashed(bs, n1, s1);
    assert forall|t: int, m: int| valid_pos(g1, t, m) implies s1((#[trigger] g1[t][m]).0) == t by {
        e.filter_lemma(in_slot(s1, t));
        assert(in_slot(s1, t)(g1[t][m]));
    }
    assert forall|j: int| 0 <= j < n2 implies #[trigger] rehashed(g1, n2, s2)[j] == rehashed(bs, n2, s2)[j] by {
        let p2 = in_slot::<K, V>(s2, j);
        let i = f(j);
        if 0 <= i < n1 {
            assert forall|t: int, m: int| valid_pos(g1, t, m) && t != i implies !p2(#[trigger] g1[t][m]) by {
                assert(s1(g1[t][m].0) == t);
            }
            lemma_entries_filter_one(g1, i, p2);
            assert forall|x: (K, V)| #[trigger] p2(x) implies in_slot(s1, i)(x) by {
                assert(s1(x.0) == f(s2(x.0)));
            }
            lemma_filter_filter(e, in_slot(s1, i), p2);
        } else {
            assert forall|t: int, m: int| valid_pos(g1, t, m) implies !p2(#[trigger] g1[t][m]) by {
                assert(s1(g1[t][m].0) == t);
                assert(s1(g1[t][m].0) == f(s2(g1[t][m].0)));
            }
            lemma_entries_filter_none(g1, p2);
            assert forall|q: int| 0 <= q < e.len() implies !p2(#[trigger] e[q]) by {
                assert(s1(e[q].0) == f(s2(e[q].0)));
            }
            lemma_filter_none(e, p2);
        }
    }
    assert(rehashed(g1, n2, s2) =~= rehashed(bs, n2, s2));
}

/// Grouping no pairs gives empty buckets.
pub proof fn lemma_grouped_empty<K, V>(n: nat, slot: spec_fn(K) -> int)
    ensures
        forall|j: int| 0 <= j < n ==> (#[trigger] grouped(Seq::<(K, V)>::empty(), n, slot)[j]).len() == 0,
{
    reveal(Seq::filter);
}

/// Adding a pair at the end of a list adds it at the end of its bucket.
pub proof fn lemma_grouped_push<K, V>(s: Seq<(K, V)>, x: (K, V), n: nat, slot: spec_fn(K) -> int)
    requires
        0 <= slot(x.0) < n,
    ensures
        grouped(s.push(x), n, slot) == grouped(s, n, slot).update(
            slot(x.0),
            grouped(s, n, slot)[slot(x.0)].push(x),
        ),
{
    reveal(Seq::filter);
    assert(s.push(x).drop_last() =~= s);
    let a = grouped(s, n, slot);
    let b = grouped(s.push(x), n, slot);
    assert(b =~= a.update(slot(x.0), a[slot(x.0)].push(x)));
}

/// The pairs whose key is in `m`.
pub open spec fn keeps<K, V>(m: Map<K, V>) -> spec_fn((K, V)) -> bool {
    |kv: (K, V)| m.contains_key(kv.0)
}

/// Filters that agree on every element of a list keep the same elements.
pub proof fn lemma_filter_congruent<A>(s: Seq<A>, p: spec_fn(A) -> bool, q: spec_fn(A) -> bool)
    requires
        forall|i: int| 0 <= i < s.len() ==> p(#[trigger] s[i]) == q(s[i]),
    ensures
        s.filter(p) == s.filter(q),
    decreases s.len(),
{
    reveal(Seq::filter);
    if s.len() > 0 {
        let t = s.drop_last();
        assert forall|i: int| 0 <= i < t.len() implies p(#[trigger] t[i]) == q(t[i]) by {
            assert(t[i] == s[i]);
        }
        lemma_filter_congruent(t, p, q);
        assert(p(s[s.len() - 1]) == q(s[s.len() - 1]));
    }
}

/// Filtering a list with one more element at its end.
pub proof fn lemma_filter_push<A>(s: Seq<A>, x: A, p: spec_fn(A) -> bool)
    ensures
        s.push(x).filter(p) == (if p(x) {
            s.filter(p).push(x)
        } else {
            s.filter(p)
        }),
{
    reveal(Seq::filter);
    assert(s.push(x).drop_last() =~= s);
}

/// Two maps that differ only on keys outside bucket `t` keep the same pairs of that bucket.
pub proof fn lemma_keeps_other_bucket<K: IntKey, V>(
    orig: Buckets<K, V>,
    mask: usize,
    t: int,
    m1: Map<K, V>,
    m2: Map<K, V>,
)
    requires
        placed(orig, mask),
        0 <= t < orig.len(),
        forall|k: K| #[trigger] m1.contains_key(k) != m2.contains_key(k) ==> bucket_index(k, mask) != t,
    ensures
        orig[t].filter(keeps(m1)) == orig[t].filter(keeps(m2)),
{
    assert forall|q: int| 0 <= q < orig[t].len() implies keeps(m1)(#[trigger] orig[t][q]) == keeps(m2)(
        orig[t][q],
    ) by {
        assert(valid_pos(orig, t, q));
        let k = orig[t][q].0;
        if m1.contains_key(k) != m2.contains_key(k) {
            assert(bucket_index(orig[t][q].0, mask) == t);
        }
    }
    lemma_filter_congruent(orig[t], keeps(m1), keeps(m2));
}

/// Bucket `b` holds a pair with key `k`.
pub open spec fn holds_key<K, V>(b: Seq<(K, V)>, k: K) -> bool {
    exists|p: int| 0 <= p < b.len() && (#[trigger] b[p]).0 == k
}

/// The position in bucket `b` of the pair with key `k`, where `holds_key(b, k)`.
pub open spec fn key_pos<K, V>(b: Seq<(K, V)>, k: K) -> int {
    choose|p: int| 0 <= p < b.len() && (#[trigger] b[p]).0 == k
}

/// Bucket `b` after `(k, v)` is put into it: a pair with key `k` is swapped out (the last pair
/// takes its place) and the new pair goes at the end.
pub open spec fn put_pair<K, V>(b: Seq<(K, V)>, k: K, v: V) -> Seq<(K, V)> {
    if holds_key(b, k) {
        swap_removed(b, key_pos(b, k)).push((k, v))
    } else {
        b.push((k, v))
    }
}

/// Bucket `b` with the value of the pair of key `k` set to `v`, in place.
pub open spec fn set_value<K, V>(b: Seq<(K, V)>, k: K, v: V) -> Seq<(K, V)> {
    b.update(key_pos(b, k), (k, v))
}

/// Bucket `b` after the pair with key `k`, if any, is swapped out of it.
pub open spec fn take_pair<K, V>(b: Seq<(K, V)>, k: K) -> Seq<(K, V)> {
    if holds_key(b, k) {
        swap_removed(b, key_pos(b, k))
    } else {
        b
    }
}

/// In a table with unique keys, the pair at `(i, j)` is the only one of its key in bucket `i`.
pub proof fn lemma_key_pos<K, V>(bs: Buckets<K, V>, i: int, j: int)
    requires
        keys_unique(bs),
        valid_pos(bs, i, j),
    ensures
        holds_key(bs[i], bs[i][j].0),
        key_pos(bs[i], bs[i][j].0) == j,
{
    let k = bs[i][j].0;
    assert(bs[i][j].0 == k);
    let p = key_pos(bs[i], k);
    assert(valid_pos(bs, i, p));
    assert(bs[i][p].0 == bs[i][j].0);
}

/// A key missing from the map of a table is in none of its buckets.
pub proof fn lemma_no_key_pos<K, V>(bs: Buckets<K, V>, i: int, k: K)
    requires
        keys_unique(bs),
        0 <= i < bs.len(),
        !map_of(bs).contains_key(k),
    ensures
        !holds_key(bs[i], k),
{
    if holds_key(bs[i], k) {
        let p = key_pos(bs[i], k);
        lemma_map_of_at(bs, i, p);
    }
}

/// A table of `n` empty buckets.
pub open spec fn empty_buckets<K, V>(n: nat) -> Buckets<K, V> {
    Seq::new(n, |j: int| Seq::<(K, V)>::empty())
}

/// The value that the map of a table gives for a key is the one stored beside it.
pub proof fn lemma_map_of_at<K, V>(bs: Buckets<K, V>, i: int, j: int)
    requires
        keys_unique(bs),
        valid_pos(bs, i, j),
    ensures
        map_of(bs).contains_key(bs[i][j].0),
        map_of(bs)[bs[i][j].0] == bs[i][j].1,
{
    let k = bs[i][j].0;
    let v = bs[i][j].1;
    assert(has_pair(bs, k, v)) by {
        assert(bs[i][j] == (k, v));
    }
    assert(has_key(bs, k));
    let v2 = choose|v2: V| has_pair(bs, k, v2);
    let (i2, j2) = choose|i2: int, j2: int| valid_pos(bs, i2, j2) && #[trigger] bs[i2][j2] == (k, v2);
    assert(bs[i2][j2].0 == bs[i][j].0);
}

/// A map is the map of a table when it has the table's keys and, for each pair of the
/// table, gives the value stored beside the key.
pub proof fn lemma_map_of_equals<K, V>(bs: Buckets<K, V>, m: Map<K, V>)
    requires
        keys_unique(bs),
        forall|k: K| #[trigger] m.contains_key(k) <==> has_key(bs, k),
        forall|i: int, j: int| valid_pos(bs, i, j) ==> m[#[trigger] bs[i][j].0] == bs[i][j].1,
    ensures
        map_of(bs) == m,
{
    assert forall|k: K| #[trigger] map_of(bs).contains_key(k) implies map_of(bs)[k] == m[k] by {
        let (i, j) = choose|i: int, j: int| valid_pos(bs, i, j) && #[trigger] bs[i][j].0 == k;
        lemma_map_of_at(bs, i, j);
    }
    assert(map_of(bs).dom() =~= m.dom());
    assert(map_of(bs) =~= m);
}

/// The map of a table with no pairs is empty.
pub proof fn lemma_map_of_no_pairs<K, V>(bs: Buckets<K, V>)
    requires
        forall|i: int| 0 <= i < bs.len() ==> #[trigger] bs[i].len() == 0,
    ensures
        map_of(bs) == Map::<K, V>::empty(),
        keys_unique(bs),
        total(bs) == 0,
    decreases bs.len(),
{
    assert(map_of(bs) =~= Map::<K, V>::empty());
    if bs.len() > 0 {
        let bs2 = bs.drop_last();
        assert forall|i: int| 0 <= i < bs2.len() implies #[trigger] bs2[i].len() == 0 by {
            assert(bs2[i] == bs[i]);
        }
        lemma_map_of_no_pairs(bs2);
    }
}

/// Replacing one bucket changes the number of pairs by the difference in its length.
pub proof fn lemma_total_update<K, V>(bs: Buckets<K, V>, i: int, b: Seq<(K, V)>)
    requires
        0 <= i < bs.len(),
    ensures
        total(bs.update(i, b)) == total(bs) - bs[i].len() + b.len(),
    decreases bs.len(),
{
    let bs2 = bs.update(i, b);
    if i == bs.len() - 1 {
        assert(bs2.drop_last() =~= bs.drop_last());
    } else {
        assert(bs2.drop_last() =~= bs.drop_last().update(i, b));
        lemma_total_update(bs.drop_last(), i, b);
    }
}

/// The bucket that is left when the pair at `j` is swapped with the last one and dropped.
pub open spec fn swap_removed<T>(b: Seq<T>, j: int) -> Seq<T> {
    b.update(j, b.last()).drop_last()
}

/// Taking one pair out of a table (as `swap_remove` does on its bucket) removes its key from
/// the map, keeps the keys unique and the pairs placed, and leaves one pair less.
pub proof fn lemma_swap_remove<K: IntKey, V>(bs: Buckets<K, V>, i: int, j: int, mask: usize)
    requires
        keys_unique(bs),
        valid_pos(bs, i, j),
    ensures
        ({
            let bs2 = bs.update(i, swap_removed(bs[i], j));
            &&& keys_unique(bs2)
            &&& map_of(bs2) == map_of(bs).remove(bs[i][j].0)
            &&& total(bs2) + 1 == total(bs)
            &&& placed(bs, mask) ==> placed(bs2, mask)
        }),
{
    let k = bs[i][j].0;
    let b2 = swap_removed(bs[i], j);
    let bs2 = bs.update(i, b2);
    let last = bs[i].len() - 1;
    // every pair of the new table is a pair of the old one, at a position other than (i, j)
    assert forall|i2: int, j2: int| #[trigger] valid_pos(bs2, i2, j2) implies {
        let (i3, j3) = if i2 == i && j2 == j {
            (i, last)
        } else {
            (i2, j2)
        };
        &&& valid_pos(bs, i3, j3)
        &&& bs2[i2][j2] == bs[i3][j3]
        &&& !(i3 == i && j3 == j)
    } by {}
    assert forall|i1: int, j1: int, i2: int, j2: int|
        #![trigger bs2[i1][j1], bs2[i2][j2]]
        valid_pos(bs2, i1, j1) && valid_pos(bs2, i2, j2) && bs2[i1][j1].0 == bs2[i2][j2].0 implies i1
        == i2 && j1 == j2 by {
        assert(valid_pos(bs2, i1, j1));
        assert(valid_pos(bs2, i2, j2));
        let p1 = if i1 == i && j1 == j {
            (i, last)
        } else {
            (i1, j1)
        };
        let p2 = if i2 == i && j2 == j {
            (i, last)
        } else {
            (i2, j2)
        };
        assert(bs[p1.0][p1.1] == bs2[i1][j1]);
        assert(bs[p2.0][p2.1] == bs2[i2][j2]);
    }
    let m = map_of(bs).remove(k);
    assert forall|k2: K| #[trigger] m.contains_key(k2) <==> has_key(bs2, k2) by {
        if m.contains_key(k2) {
            let (i3, j3) = choose|i3: int, j3: int| valid_pos(bs, i3, j3) && #[trigger] bs[i3][j3].0 == k2;
            assert(!(i3 == i && j3 == j));
            if i3 == i && j3 == last {
                assert(bs2[i][j] == bs[i3][j3]);
            } else {
                assert(bs2[i3][j3] == bs[i3][j3]);
            }
        }
        if has_key(bs2, k2) {
            let (i2, j2) = choose|i2: int, j2: int| valid_pos(bs2, i2, j2) && #[trigger] bs2[i2][j2].0 == k2;
            assert(valid_pos(bs2, i2, j2));
            let (i3, j3) = if i2 == i && j2 == j {
                (i, last)
            } else {
                (i2, j2)
            };
            assert(bs[i3][j3].0 == k2);
            assert(bs[i][j].0 == k);
            assert(has_key(bs, k2));
        }
    }
    assert forall|i2: int, j2: int| valid_pos(bs2, i2, j2) implies m[#[trigger] bs2[i2][j2].0]
        == bs2[i2][j2].1 by {
        assert(valid_pos(bs2, i2, j2));
        let (i3, j3) = if i2 == i && j2 == j {
            (i, last)
        } else {
            (i2, j2)
        };
        lemma_map_of_at(bs, i3, j3);
        assert(bs[i][j].0 == k);
    }
    lemma_map_of_equals(bs2, m);
    lemma_total_update(bs, i, b2);
    if placed(bs, mask) {
        assert forall|i2: int, j2: int| valid_pos(bs2, i2, j2) implies bucket_index(
            #[trigger] bs2[i2][j2].0,
            mask,
        ) == i2 by {
            assert(valid_pos(bs2, i2, j2));
            let (i3, j3) = if i2 == i && j2 == j {
                (i, last)
            } else {
                (i2, j2)
            };
            assert(bs[i3][j3] == bs2[i2][j2]);
        }
    }
}

/// Adding a pair whose key the table lacks adds it to the map, keeps the keys unique and
/// leaves one pair more.
pub proof fn lemma_push<K: IntKey, V>(bs: Buckets<K, V>, i: int, kv: (K, V), mask: usize)
    requires
        keys_unique(bs),
        0 <= i < bs.len(),
        !has_key(bs, kv.0),
    ensures
        ({
            let bs2 = bs.update(i, bs[i].push(kv));
            &&& keys_unique(bs2)
            &&& map_of(bs2) == map_of(bs).insert(kv.0, kv.1)
            &&& total(bs2) == total(bs) + 1
            &&& (placed(bs, mask) && bucket_index(kv.0, mask) == i) ==> placed(bs2, mask)
        }),
{
    let bs2 = bs.update(i, bs[i].push(kv));
    let n = bs[i].len() as int;
    assert forall|i2: int, j2: int| #[trigger] valid_pos(bs2, i2, j2) && !(i2 == i && j2 == n)
        implies valid_pos(bs, i2, j2) && bs2[i2][j2] == bs[i2][j2] by {}
    assert(bs2[i][n] == kv);
    assert forall|i1: int, j1: int, i2: int, j2: int|
        #![trigger bs2[i1][j1], bs2[i2][j2]]
        valid_pos(bs2, i1, j1) && valid_pos(bs2, i2, j2) && bs2[i1][j1].0 == bs2[i2][j2].0 implies i1
        == i2 && j1 == j2 by {
        assert(valid_pos(bs2, i1, j1));
        assert(valid_pos(bs2, i2, j2));
        if !(i1 == i && j1 == n) {
            assert(bs2[i1][j1] == bs[i1][j1]);
        }
        if !(i2 == i && j2 == n) {
            assert(bs2[i2][j2] == bs[i2][j2]);
        }
    }
    let m = map_of(bs).insert(kv.0, kv.1);
    assert forall|k2: K| #[trigger] m.contains_key(k2) <==> has_key(bs2, k2) by {
        if m.contains_key(k2) {
            if k2 == kv.0 {
                assert(bs2[i][n].0 == k2);
            } else {
                let (i3, j3) = choose|i3: int, j3: int| valid_pos(bs, i3, j3) && #[trigger] bs[i3][j3].0 == k2;
                assert(bs2[i3][j3] == bs[i3][j3]);
            }
        }
        if has_key(bs2, k2) {
            let (i2, j2) = choose|i2: int, j2: int| valid_pos(bs2, i2, j2) && #[trigger] bs2[i2][j2].0 == k2;
            assert(valid_pos(bs2, i2, j2));
            if !(i2 == i && j2 == n) {
                assert(bs[i2][j2].0 == k2);
            }
        }
    }
    assert forall|i2: int, j2: int| valid_pos(bs2, i2, j2) implies m[#[trigger] bs2[i2][j2].0]
        == bs2[i2][j2].1 by {
        assert(valid_pos(bs2, i2, j2));
        if !(i2 == i && j2 == n) {
            lemma_map_of_at(bs, i2, j2);
            assert(bs[i2][j2].0 != kv.0);
        }
    }
    lemma_map_of_equals(bs2, m);
    lemma_total_update(bs, i, bs[i].push(kv));
    if placed(bs, mask) && bucket_index(kv.0, mask) == i {
        assert forall|i2: int, j2: int| valid_pos(bs2, i2, j2) implies bucket_index(
            #[trigger] bs2[i2][j2].0,
            mask,
        ) == i2 by {
            assert(valid_pos(bs2, i2, j2));
            if !(i2 == i && j2 == n) {
                assert(bs2[i2][j2] == bs[i2][j2]);
            }
        }
    }
}

/// Changing the value of one pair of a table changes only that key's value in the map, and
/// keeps the keys unique, the pairs placed and their number.
pub proof fn lemma_set_value<K: IntKey, V>(bs: Buckets<K, V>, i: int, j: int, v: V, mask: usize)
    requires
        keys_unique(bs),
        valid_pos(bs, i, j),
    ensures
        ({
            let bs2 = bs.update(i, bs[i].update(j, (bs[i][j].0, v)));
            &&& keys_unique(bs2)
            &&& map_of(bs2) == map_of(bs).insert(bs[i][j].0, v)
            &&& total(bs2) == total(bs)
            &&& placed(bs, mask) ==> placed(bs2, mask)
        }),
{
    let k = bs[i][j].0;
    let bs2 = bs.update(i, bs[i].update(j, (k, v)));
    assert forall|i2: int, j2: int| #[trigger] valid_pos(bs2, i2, j2) implies valid_pos(bs, i2, j2)
        && bs2[i2][j2].0 == bs[i2][j2].0 && (!(i2 == i && j2 == j) ==> bs2[i2][j2] == bs[i2][j2]) by {}
    assert forall|i1: int, j1: int, i2: int, j2: int|
        #![trigger bs2[i1][j1], bs2[i2][j2]]
        valid_pos(bs2, i1, j1) && valid_pos(bs2, i2, j2) && bs2[i1][j1].0 == bs2[i2][j2].0 implies i1
        == i2 && j1 == j2 by {
        assert(valid_pos(bs2, i1, j1));
        assert(valid_pos(bs2, i2, j2));
        assert(bs[i1][j1].0 == bs[i2][j2].0);
    }
    let m = map_of(bs).insert(k, v);
    assert forall|k2: K| #[trigger] m.contains_key(k2) <==> has_key(bs2, k2) by {
        if m.contains_key(k2) {
            if k2 == k {
                assert(bs2[i][j].0 == k2);
            } else {
                let (i3, j3) = choose|i3: int, j3: int| valid_pos(bs, i3, j3) && #[trigger] bs[i3][j3].0 == k2;
                assert(valid_pos(bs2, i3, j3));
                assert(bs2[i3][j3].0 == k2);
            }
        }
        if has_key(bs2, k2) {
            let (i2, j2) = choose|i2: int, j2: int| valid_pos(bs2, i2, j2) && #[trigger] bs2[i2][j2].0 == k2;
            assert(valid_pos(bs2, i2, j2));
            assert(bs[i2][j2].0 == k2);
        }
    }
    assert forall|i2: int, j2: int| valid_pos(bs2, i2, j2) implies m[#[trigger] bs2[i2][j2].0]
        == bs2[i2][j2].1 by {
        assert(valid_pos(bs2, i2, j2));
        if !(i2 == i && j2 == j) {
            lemma_map_of_at(bs, i2, j2);
            assert(bs[i2][j2].0 != k);
        }
    }
    lemma_map_of_equals(bs2, m);
    lemma_total_update(bs, i, bs[i].update(j, (k, v)));
    if placed(bs, mask) {
        assert forall|i2: int, j2: int| valid_pos(bs2, i2, j2) implies bucket_index(
            #[trigger] bs2[i2][j2].0,
            mask,
        ) == i2 by {
            assert(valid_pos(bs2, i2, j2));
            assert(bs[i2][j2].0 == bs2[i2][j2].0);
        }
    }
}

/// Taking bucket `i` out of a table splits it in two: the table with that bucket emptied and
/// a table made of that bucket alone. The keys are split between them and keep their values.
pub proof fn lemma_split_bucket<K: IntKey, V>(bs: Buckets<K, V>, i: int, mask: usize)
    requires
        keys_unique(bs),
        0 <= i < bs.len(),
    ensures
        ({
            let a = bs.update(i, Seq::empty());
            let b = seq![bs[i]];
            &&& keys_unique(a)
            &&& keys_unique(b)
            &&& disjoint_keys(a, b)
            &&& forall|k: K| #[trigger] has_key(bs, k) <==> (has_key(a, k) || has_key(b, k))
            &&& forall|k: K| #[trigger] has_key(a, k) ==> map_of(a)[k] == map_of(bs)[k]
            &&& forall|k: K| #[trigger] has_key(b, k) ==> map_of(b)[k] == map_of(bs)[k]
            &&& total(a) + bs[i].len() == total(bs)
            &&& placed(bs, mask) ==> placed(a, mask)
            &&& placed(bs, mask) ==> forall|k: K| #[trigger] has_key(b, k) ==> bucket_index(k, mask) == i
        }),
{
    let a = bs.update(i, Seq::empty());
    let b = seq![bs[i]];
    assert forall|i2: int, j2: int| #[trigger] valid_pos(a, i2, j2) implies valid_pos(bs, i2, j2)
        && a[i2][j2] == bs[i2][j2] && i2 != i by {}
    assert forall|i2: int, j2: int| #[trigger] valid_pos(b, i2, j2) implies valid_pos(bs, i, j2)
        && b[i2][j2] == bs[i][j2] && i2 == 0 by {}
    assert forall|i1: int, j1: int, i2: int, j2: int|
        #![trigger a[i1][j1], a[i2][j2]]
        valid_pos(a, i1, j1) && valid_pos(a, i2, j2) && a[i1][j1].0 == a[i2][j2].0 implies i1
        == i2 && j1 == j2 by {
        assert(valid_pos(a, i1, j1));
        assert(valid_pos(a, i2, j2));
        assert(bs[i1][j1] == a[i1][j1]);
        assert(bs[i2][j2] == a[i2][j2]);
    }
    assert forall|i1: int, j1: int, i2: int, j2: int|
        #![trigger b[i1][j1], b[i2][j2]]
        valid_pos(b, i1, j1) && valid_pos(b, i2, j2) && b[i1][j1].0 == b[i2][j2].0 implies i1
        == i2 && j1 == j2 by {
        assert(valid_pos(b, i1, j1));
        assert(valid_pos(b, i2, j2));
        assert(bs[i][j1] == b[i1][j1]);
        assert(bs[i][j2] == b[i2][j2]);
    }
    assert forall|k: K| #![trigger has_key(a, k)] #![trigger has_key(b, k)] !(has_key(a, k) && has_key(b, k)) by {
        if has_key(a, k) && has_key(b, k) {
            let (i1, j1) = choose|i1: int, j1: int| valid_pos(a, i1, j1) && #[trigger] a[i1][j1].0 == k;
            let (i2, j2) = choose|i2: int, j2: int| valid_pos(b, i2, j2) && #[trigger] b[i2][j2].0 == k;
            assert(valid_pos(a, i1, j1));
            assert(valid_pos(b, i2, j2));
            assert(bs[i1][j1].0 == bs[i][j2].0);
        }
    }
    assert forall|k: K| #[trigger] has_key(bs, k) <==> (has_key(a, k) || has_key(b, k)) by {
        if has_key(bs, k) {
            let (i1, j1) = choose|i1: int, j1: int| valid_pos(bs, i1, j1) && #[trigger] bs[i1][j1].0 == k;
            if i1 == i {
                assert(b[0][j1] == bs[i1][j1]);
            } else {
                assert(a[i1][j1] == bs[i1][j1]);
            }
        }
        if has_key(a, k) {
            let (i1, j1) = choose|i1: int, j1: int| valid_pos(a, i1, j1) && #[trigger] a[i1][j1].0 == k;
            assert(valid_pos(a, i1, j1));
            assert(bs[i1][j1].0 == k);
        }
        if has_key(b, k) {
            let (i1, j1) = choose|i1: int, j1: int| valid_pos(b, i1, j1) && #[trigger] b[i1][j1].0 == k;
            assert(valid_pos(b, i1, j1));
            assert(bs[i][j1].0 == k);
        }
    }
    assert forall|k: K| #[trigger] has_key(a, k) implies map_of(a)[k] == map_of(bs)[k] by {
        let (i1, j1) = choose|i1: int, j1: int| valid_pos(a, i1, j1) && #[trigger] a[i1][j1].0 == k;
        assert(valid_pos(a, i1, j1));
        lemma_map_of_at(a, i1, j1);
        lemma_map_of_at(bs, i1, j1);
    }
    assert forall|k: K| #[trigger] has_key(b, k) implies map_of(b)[k] == map_of(bs)[k] by {
        let (i1, j1) = choose|i1: int, j1: int| valid_pos(b, i1, j1) && #[trigger] b[i1][j1].0 == k;
        assert(valid_pos(b, i1, j1));
        lemma_map_of_at(b, i1, j1);
        lemma_map_of_at(bs, i, j1);
    }
    lemma_total_update(bs, i, Seq::empty());
    if placed(bs, mask) {
        assert forall|i2: int, j2: int| valid_pos(a, i2, j2) implies bucket_index(
            #[trigger] a[i2][j2].0,
            mask,
        ) == i2 by {
            assert(valid_pos(a, i2, j2));
            assert(bs[i2][j2] == a[i2][j2]);
        }
        assert forall|k: K| #[trigger] has_key(b, k) implies bucket_index(k, mask) == i by {
            let (i1, j1) = choose|i1: int, j1: int| valid_pos(b, i1, j1) && #[trigger] b[i1][j1].0 == k;
            assert(valid_pos(b, i1, j1));
            assert(bs[i][j1] == b[i1][j1]);
        }
    }
}

/// No key is held by both tables.
pub open spec fn disjoint_keys<K, V>(a: Buckets<K, V>, b: Buckets<K, V>) -> bool {
    forall|k: K| #![trigger has_key(a, k)] #![trigger has_key(b, k)] !(has_key(a, k) && has_key(b, k))
}

/// The pairs of `orig` are those of `a` together with those of `b`.
pub open spec fn split_pairs<K, V>(orig: Buckets<K, V>, a: Buckets<K, V>, b: Buckets<K, V>) -> bool {
    forall|k: K, v: V|
        #![trigger has_pair(orig, k, v)]
        #![trigger has_pair(a, k, v)]
        #![trigger has_pair(b, k, v)]
        has_pair(orig, k, v) <==> (has_pair(a, k, v) || has_pair(b, k, v))
}

/// Two tables with unique keys and the same pairs stand for the same map.
pub proof fn lemma_same_pairs<K, V>(a: Buckets<K, V>, b: Buckets<K, V>)
    requires
        keys_unique(a),
        keys_unique(b),
        forall|k: K, v: V|
            #![trigger has_pair(a, k, v)]
            #![trigger has_pair(b, k, v)]
            has_pair(a, k, v) <==> has_pair(b, k, v),
    ensures
        map_of(a) == map_of(b),
{
    assert forall|k: K| #[trigger] map_of(b).contains_key(k) <==> has_key(a, k) by {
        if has_key(a, k) {
            let (i, j) = choose|i: int, j: int| valid_pos(a, i, j) && #[trigger] a[i][j].0 == k;
            assert(a[i][j] == (k, a[i][j].1));
            assert(has_pair(a, k, a[i][j].1));
            let (i2, j2) = choose|i2: int, j2: int| valid_pos(b, i2, j2) && #[trigger] b[i2][j2] == (k, a[i][j].1);
            assert(b[i2][j2].0 == k);
        }
        if has_key(b, k) {
            let (i, j) = choose|i: int, j: int| valid_pos(b, i, j) && #[trigger] b[i][j].0 == k;
            assert(b[i][j] == (k, b[i][j].1));
            assert(has_pair(b, k, b[i][j].1));
            let (i2, j2) = choose|i2: int, j2: int| valid_pos(a, i2, j2) && #[trigger] a[i2][j2] == (k, b[i][j].1);
            assert(a[i2][j2].0 == k);
        }
    }
    assert forall|i: int, j: int| valid_pos(a, i, j) implies map_of(b)[#[trigger] a[i][j].0] == a[i][j].1 by {
        assert(a[i][j] == (a[i][j].0, a[i][j].1));
        assert(has_pair(a, a[i][j].0, a[i][j].1));
        let (i2, j2) = choose|i2: int, j2: int| valid_pos(b, i2, j2) && #[trigger] b[i2][j2] == (a[i][j].0, a[i][j].1);
        lemma_map_of_at(b, i2, j2);
    }
    lemma_map_of_equals(a, map_of(b));
}

/// The pairs of a table after a push onto one of its buckets.
pub proof fn lemma_has_pair_push<K, V>(bs: Buckets<K, V>, i: int, kv: (K, V))
    requires
        0 <= i < bs.len(),
    ensures
        forall|k: K, v: V|
            #[trigger] has_pair(bs.update(i, bs[i].push(kv)), k, v) <==> (has_pair(bs, k, v) || (
            k, v) == kv),
{
    let bs2 = bs.update(i, bs[i].push(kv));
    let n = bs[i].len() as int;
    assert forall|k: K, v: V| #[trigger] has_pair(bs2, k, v) <==> (has_pair(bs, k, v) || (k, v) == kv) by {
        if has_pair(bs2, k, v) {
            let (i2, j2) = choose|i2: int, j2: int| valid_pos(bs2, i2, j2) && #[trigger] bs2[i2][j2] == (k, v);
            if !(i2 == i && j2 == n) {
                assert(bs[i2][j2] == bs2[i2][j2]);
            }
        }
        if has_pair(bs, k, v) {
            let (i2, j2) = choose|i2: int, j2: int| valid_pos(bs, i2, j2) && #[trigger] bs[i2][j2] == (k, v);
            assert(bs2[i2][j2] == bs[i2][j2]);
        }
        if (k, v) == kv {
            assert(bs2[i][n] == kv);
        }
    }
}

/// The pairs of a table before the last pair of one of its buckets is dropped.
pub proof fn lemma_has_pair_drop_last<K, V>(bs: Buckets<K, V>, i: int)
    requires
        0 <= i < bs.len(),
        bs[i].len() > 0,
    ensures
        forall|k: K, v: V|
            #[trigger] has_pair(bs, k, v) <==> (has_pair(bs.update(i, bs[i].drop_last()), k, v) || (
            k, v) == bs[i].last()),
{
    let bs2 = bs.update(i, bs[i].drop_last());
    let n = bs[i].len() - 1;
    assert forall|k: K, v: V| #[trigger] has_pair(bs, k, v) <==> (has_pair(bs2, k, v) || (k, v) == bs[i].last()) by {
        if has_pair(bs, k, v) {
            let (i2, j2) = choose|i2: int, j2: int| valid_pos(bs, i2, j2) && #[trigger] bs[i2][j2] == (k, v);
            if !(i2 == i && j2 == n) {
                assert(bs2[i2][j2] == bs[i2][j2]);
            }
        }
        if has_pair(bs2, k, v) {
            let (i2, j2) = choose|i2: int, j2: int| valid_pos(bs2, i2, j2) && #[trigger] bs2[i2][j2] == (k, v);
            assert(bs2[i2][j2] == bs[i2][j2]);
        }
        if (k, v) == bs[i].last() {
            assert(bs[i][n] == bs[i].last());
        }
    }
}

/// Reversing one bucket keeps the pairs of the table, their keys unique and their number.
pub proof fn lemma_reverse_bucket<K, V>(bs: Buckets<K, V>, i: int)
    requires
        0 <= i < bs.len(),
    ensures
        ({
            let bs2 = bs.update(i, bs[i].reverse());
            &&& forall|k: K, v: V|
                #![trigger has_pair(bs2, k, v)]
                #![trigger has_pair(bs, k, v)]
                has_pair(bs2, k, v) <==> has_pair(bs, k, v)
            &&& forall|k: K|
                #![trigger has_key(bs2, k)]
                #![trigger has_key(bs, k)]
                has_key(bs2, k) <==> has_key(bs, k)
            &&& keys_unique(bs) ==> keys_unique(bs2)
            &&& total(bs2) == total(bs)
        }),
{
    let bs2 = bs.update(i, bs[i].reverse());
    let n = bs[i].len() as int;
    // the position in `bs` of the pair at (i2, j2) of `bs2`
    assert forall|i2: int, j2: int| #[trigger] valid_pos(bs2, i2, j2) implies {
        let j3 = if i2 == i {
            n - 1 - j2
        } else {
            j2
        };
        valid_pos(bs, i2, j3) && bs2[i2][j2] == bs[i2][j3]
    } by {}
    assert forall|i2: int, j2: int| #[trigger] valid_pos(bs, i2, j2) implies {
        let j3 = if i2 == i {
            n - 1 - j2
        } else {
            j2
        };
        valid_pos(bs2, i2, j3) && bs[i2][j2] == bs2[i2][j3]
    } by {}
    assert forall|k: K, v: V|
        #![trigger has_pair(bs2, k, v)]
        #![trigger has_pair(bs, k, v)]
        has_pair(bs2, k, v) <==> has_pair(bs, k, v) by {
        if has_pair(bs2, k, v) {
            let (i2, j2) = choose|i2: int, j2: int| valid_pos(bs2, i2, j2) && #[trigger] bs2[i2][j2] == (k, v);
            assert(valid_pos(bs2, i2, j2));
        }
        if has_pair(bs, k, v) {
            let (i2, j2) = choose|i2: int, j2: int| valid_pos(bs, i2, j2) && #[trigger] bs[i2][j2] == (k, v);
            assert(valid_pos(bs, i2, j2));
        }
    }
    assert forall|k: K|
        #![trigger has_key(bs2, k)]
        #![trigger has_key(bs, k)]
        has_key(bs2, k) <==> has_key(bs, k) by {
        if has_key(bs2, k) {
            let (i2, j2) = choose|i2: int, j2: int| valid_pos(bs2, i2, j2) && #[trigger] bs2[i2][j2].0 == k;
            assert(valid_pos(bs2, i2, j2));
        }
        if has_key(bs, k) {
            let (i2, j2) = choose|i2: int, j2: int| valid_pos(bs, i2, j2) && #[trigger] bs[i2][j2].0 == k;
            assert(valid_pos(bs, i2, j2));
        }
    }
    if keys_unique(bs) {
        assert forall|i1: int, j1: int, i2: int, j2: int|
            #![trigger bs2[i1][j1], bs2[i2][j2]]
            valid_pos(bs2, i1, j1) && valid_pos(bs2, i2, j2) && bs2[i1][j1].0 == bs2[i2][j2].0 implies i1
            == i2 && j1 == j2 by {
            assert(valid_pos(bs2, i1, j1));
            assert(valid_pos(bs2, i2, j2));
            let j3 = if i1 == i { n - 1 - j1 } else { j1 };
            let j4 = if i2 == i { n - 1 - j2 } else { j2 };
            assert(bs[i1][j3].0 == bs[i2][j4].0);
        }
    }
    lemma_total_update(bs, i, bs[i].reverse());
}

/// Moving the last pair of bucket `i` of `b` into bucket `ix` (its own bucket) of `a` keeps
/// `a` consistent and the pairs of `orig` split between the two tables.
pub proof fn lemma_move_last<K: IntKey, V>(
    orig: Buckets<K, V>,
    a: Buckets<K, V>,
    b: Buckets<K, V>,
    i: int,
    ix: int,
    mask: usize,
)
    requires
        keys_unique(a),
        keys_unique(b),
        placed(a, mask),
        disjoint_keys(a, b),
        split_pairs(orig, a, b),
        0 <= i < b.len(),
        b[i].len() > 0,
        0 <= ix < a.len(),
        ix == bucket_index(b[i].last().0, mask),
    ensures
        ({
            let kv = b[i].last();
            let a2 = a.update(ix, a[ix].push(kv));
            let b2 = b.update(i, b[i].drop_last());
            &&& keys_unique(a2)
            &&& keys_unique(b2)
            &&& placed(a2, mask)
            &&& disjoint_keys(a2, b2)
            &&& split_pairs(orig, a2, b2)
            &&& total(a2) + total(b2) == total(a) + total(b)
        }),
{
    let kv = b[i].last();
    let last = b[i].len() - 1;
    let a2 = a.update(ix, a[ix].push(kv));
    let b2 = b.update(i, b[i].drop_last());
    assert(b[i][last] == kv);
    assert(has_key(b, kv.0));
    assert(!has_key(a, kv.0));
    lemma_push(a, ix, kv, mask);
    assert(swap_removed(b[i], last) =~= b[i].drop_last());
    lemma_swap_remove(b, i, last, mask);
    lemma_has_pair_push(a, ix, kv);
    lemma_has_pair_drop_last(b, i);
    assert forall|k: K| #![trigger has_key(a2, k)] #![trigger has_key(b2, k)] !(has_key(a2, k) && has_key(b2, k)) by {
        assert(map_of(a2).contains_key(k) == has_key(a2, k));
        assert(map_of(b2).contains_key(k) == has_key(b2, k));
        assert(map_of(a).contains_key(k) == has_key(a, k));
        assert(map_of(b).contains_key(k) == has_key(b, k));
    }
}

/// The pairs of a table, bucket after bucket.
pub open spec fn entries<K, V>(bs: Buckets<K, V>) -> Seq<(K, V)>
    decreases bs.len(),
{
    if bs.len() == 0 {
        Seq::empty()
    } else {
        entries(bs.drop_last()) + bs.last()
    }
}

/// `s` lists the pairs of `m`, each key once.
pub open spec fn enumerates<K, V>(s: Seq<(K, V)>, m: Map<K, V>) -> bool {
    &&& s.len() == m.len()
    &&& forall|p: int| 0 <= p < s.len() ==> #[trigger] m.contains_key(s[p].0) && m[s[p].0] == s[p].1
    &&& forall|p1: int, p2: int|
        0 <= p1 < s.len() && 0 <= p2 < s.len() && p1 != p2 ==> (#[trigger] s[p1]).0 != (
        #[trigger] s[p2]).0
    &&& forall|k: K| #[trigger] m.contains_key(k) ==> exists|p: int| 0 <= p < s.len() && (#[trigger] s[p]).0 == k
}

/// The position in `entries(bs)` of the pair at `(i, j)`.
pub open spec fn flat_index<K, V>(bs: Buckets<K, V>, i: int, j: int) -> int {
    total(bs.take(i)) + j
}

/// The list of pairs is as long as the table has pairs.
pub proof fn lemma_entries_len<K, V>(bs: Buckets<K, V>)
    ensures
        entries(bs).len() == total(bs),
    decreases bs.len(),
{
    if bs.len() > 0 {
        lemma_entries_len(bs.drop_last());
    }
}

/// A prefix of the buckets holds no more pairs than the whole table.
pub proof fn lemma_total_take<K, V>(bs: Buckets<K, V>, i: int)
    requires
        0 <= i <= bs.len(),
    ensures
        total(bs.take(i)) <= total(bs),
        i < bs.len() ==> total(bs.take(i + 1)) == total(bs.take(i)) + bs[i].len(),
        total(bs.take(bs.len() as int)) == total(bs),
    decreases bs.len(),
{
    assert(bs.take(bs.len() as int) =~= bs);
    if i < bs.len() {
        assert(bs.take(i + 1).drop_last() =~= bs.take(i));
    }
    if bs.len() > 0 && i < bs.len() {
        lemma_total_take(bs.drop_last(), i);
        assert(bs.drop_last().take(i) =~= bs.take(i));
        if i + 1 < bs.len() {
            lemma_total_take(bs.drop_last(), i + 1);
            assert(bs.drop_last().take(i + 1) =~= bs.take(i + 1));
        }
    }
}

/// The pair at `(i, j)` sits at its flat index in the list of pairs.
pub proof fn lemma_entries_at<K, V>(bs: Buckets<K, V>, i: int, j: int)
    requires
        valid_pos(bs, i, j),
    ensures
        0 <= flat_index(bs, i, j) < entries(bs).len(),
        entries(bs)[flat_index(bs, i, j)] == bs[i][j],
    decreases bs.len(),
{
    let n = bs.len() - 1;
    let init = bs.drop_last();
    lemma_entries_len(bs);
    lemma_entries_len(init);
    if i == n {
        assert(bs.take(i) =~= init);
    } else {
        lemma_entries_at(init, i, j);
        assert(init.take(i) =~= bs.take(i));
    }
}

/// Every pair of the list of pairs comes from a position of the table.
pub proof fn lemma_entries_from<K, V>(bs: Buckets<K, V>, p: int)
    requires
        0 <= p < entries(bs).len(),
    ensures
        exists|i: int, j: int| valid_pos(bs, i, j) && flat_index(bs, i, j) == p && entries(bs)[p] == bs[i][j],
    decreases bs.len(),
{
    let n = bs.len() - 1;
    let init = bs.drop_last();
    lemma_entries_len(init);
    if p < entries(init).len() {
        lemma_entries_from(init, p);
        let (i, j) = choose|i: int, j: int| valid_pos(init, i, j) && flat_index(init, i, j) == p && entries(init)[p] == init[i][j];
        assert(init.take(i) =~= bs.take(i));
        assert(valid_pos(bs, i, j) && flat_index(bs, i, j) == p && entries(bs)[p] == bs[i][j]);
    } else {
        let j = p - entries(init).len();
        assert(bs.take(n) =~= init);
        assert(valid_pos(bs, n, j) && flat_index(bs, n, j) == p && entries(bs)[p] == bs[n][j]);
    }
}

/// Longer prefixes hold at least as many pairs.
pub proof fn lemma_total_take_mono<K, V>(bs: Buckets<K, V>, a: int, b: int)
    requires
        0 <= a <= b <= bs.len(),
    ensures
        total(bs.take(a)) <= total(bs.take(b)),
    decreases b - a,
{
    if a < b {
        lemma_total_take(bs, b - 1);
        lemma_total_take_mono(bs, a, b - 1);
    }
}

/// Changing the pair at `(i, j)` changes the list of pairs at its flat index.
pub proof fn lemma_entries_update<K, V>(bs: Buckets<K, V>, i: int, j: int, x: (K, V))
    requires
        valid_pos(bs, i, j),
    ensures
        entries(bs.update(i, bs[i].update(j, x))) == entries(bs).update(flat_index(bs, i, j), x),
        bs.update(i, bs[i].update(j, x)).take(i) == bs.take(i),
    decreases bs.len(),
{
    let bs2 = bs.update(i, bs[i].update(j, x));
    let n = bs.len() - 1;
    let init = bs.drop_last();
    assert(bs2.take(i) =~= bs.take(i));
    lemma_entries_len(init);
    if i == n {
        assert(bs2.drop_last() =~= init);
        assert(bs.take(i) =~= init);
        assert(entries(bs2) =~= entries(bs).update(flat_index(bs, i, j), x));
    } else {
        assert(bs2.drop_last() =~= init.update(i, init[i].update(j, x)));
        lemma_entries_update(init, i, j, x);
        lemma_entries_at(init, i, j);
        assert(init.take(i) =~= bs.take(i));
        assert(entries(bs2) =~= entries(bs).update(flat_index(bs, i, j), x));
    }
}

/// The list of pairs when the last bucket is empty, or loses its last pair.
pub proof fn lemma_entries_drop<K, V>(bs: Buckets<K, V>)
    requires
        bs.len() > 0,
    ensures
        bs.last().len() == 0 ==> entries(bs) == entries(bs.drop_last()),
        bs.last().len() > 0 ==> entries(bs).len() > 0 && entries(bs).last() == bs.last().last()
            && entries(bs.update(bs.len() - 1, bs.last().drop_last())) == entries(bs).drop_last(),
{
    let n = bs.len() - 1;
    if bs.last().len() == 0 {
        assert(entries(bs) =~= entries(bs.drop_last()));
    } else {
        let bs2 = bs.update(n, bs.last().drop_last());
        assert(bs2.drop_last() =~= bs.drop_last());
        assert(entries(bs2) =~= entries(bs).drop_last());
    }
}

/// The table read backwards, each bucket reversed too.
pub open spec fn rev_all<K, V>(bs: Buckets<K, V>) -> Buckets<K, V> {
    Seq::new(bs.len(), |i: int| bs[bs.len() - 1 - i].reverse())
}

/// The list of pairs starts with the first bucket.
pub proof fn lemma_entries_first<K, V>(bs: Buckets<K, V>)
    requires
        bs.len() > 0,
    ensures
        entries(bs) == bs[0] + entries(bs.drop_first()),
    decreases bs.len(),
{
    if bs.len() == 1 {
        assert(bs.drop_first().len() == 0);
        assert(bs.drop_last().len() == 0);
        assert(entries(bs.drop_last()) == Seq::<(K, V)>::empty());
        assert(entries(bs.drop_first()) == Seq::<(K, V)>::empty());
        assert(bs.last() == bs[0]);
        assert(entries(bs) =~= bs[0] + entries(bs.drop_first()));
    } else {
        lemma_entries_first(bs.drop_last());
        assert(bs.drop_first().drop_last() =~= bs.drop_last().drop_first());
        assert(bs.drop_last()[0] == bs[0]);
        assert(bs.drop_first().last() == bs.last());
        let a = bs[0];
        let b = entries(bs.drop_last().drop_first());
        let c = bs.last();
        assert(entries(bs.drop_first()) == entries(bs.drop_first().drop_last()) + bs.drop_first().last());
        assert(entries(bs) == (a + b) + c);
        assert((a + b) + c =~= a + (b + c));
    }
}

/// Reading a table backwards, buckets reversed, lists its pairs in reverse.
pub proof fn lemma_entries_rev_all<K, V>(bs: Buckets<K, V>)
    ensures
        entries(rev_all(bs)) == entries(bs).reverse(),
    decreases bs.len(),
{
    if bs.len() == 0 {
        assert(entries(rev_all(bs)) =~= entries(bs).reverse());
    } else {
        let rest = bs.drop_first();
        lemma_entries_rev_all(rest);
        lemma_entries_first(bs);
        assert(rev_all(bs).drop_last() =~= rev_all(rest));
        assert(rev_all(bs).last() == bs[0].reverse());
        assert(entries(rev_all(bs)) =~= entries(bs).reverse());
    }
}

/// The list of pairs of a table with unique keys enumerates its map.
pub proof fn lemma_entries_enumerate<K: IntKey, V>(bs: Buckets<K, V>)
    requires
        keys_unique(bs),
    ensures
        enumerates(entries(bs), map_of(bs)),
{
    let s = entries(bs);
    let m = map_of(bs);
    lemma_entries_len(bs);
    lemma_map_of_len(bs);
    assert forall|p: int| 0 <= p < s.len() implies #[trigger] m.contains_key(s[p].0) && m[s[p].0] == s[p].1 by {
        lemma_entries_from(bs, p);
        let (i, j) = choose|i: int, j: int| valid_pos(bs, i, j) && flat_index(bs, i, j) == p && entries(bs)[p] == bs[i][j];
        lemma_map_of_at(bs, i, j);
    }
    assert forall|p1: int, p2: int|
        0 <= p1 < s.len() && 0 <= p2 < s.len() && p1 != p2 implies (#[trigger] s[p1]).0 != (
        #[trigger] s[p2]).0 by {
        lemma_entries_from(bs, p1);
        lemma_entries_from(bs, p2);
        let (i1, j1) = choose|i: int, j: int| valid_pos(bs, i, j) && flat_index(bs, i, j) == p1 && entries(bs)[p1] == bs[i][j];
        let (i2, j2) = choose|i: int, j: int| valid_pos(bs, i, j) && flat_index(bs, i, j) == p2 && entries(bs)[p2] == bs[i][j];
        if s[p1].0 == s[p2].0 {
            assert(bs[i1][j1].0 == bs[i2][j2].0);
        }
    }
    assert forall|k: K| #[trigger] m.contains_key(k) implies exists|p: int| 0 <= p < s.len() && (#[trigger] s[p]).0 == k by {
        let (i, j) = choose|i: int, j: int| valid_pos(bs, i, j) && #[trigger] bs[i][j].0 == k;
        lemma_entries_at(bs, i, j);
        let p = flat_index(bs, i, j);
        assert(s[p].0 == k);
    }
}

/// The map of a table is finite and has as many keys as the table has pairs.
pub proof fn lemma_map_of_len<K: IntKey, V>(bs: Buckets<K, V>)
    requires
        keys_unique(bs),
    ensures
        map_of(bs).dom().finite(),
        map_of(bs).len() == total(bs),
    decreases bs.len(), total(bs),
{
    if bs.len() == 0 {
        assert(map_of(bs) =~= Map::<K, V>::empty());
    } else if bs.last().len() == 0 {
        let bs2 = bs.drop_last();
        assert forall|i1: int, j1: int, i2: int, j2: int|
            #![trigger bs2[i1][j1], bs2[i2][j2]]
            valid_pos(bs2, i1, j1) && valid_pos(bs2, i2, j2) && bs2[i1][j1].0 == bs2[i2][j2].0 implies i1
            == i2 && j1 == j2 by {
            assert(bs2[i1][j1] == bs[i1][j1]);
            assert(bs2[i2][j2] == bs[i2][j2]);
        }
        assert forall|k: K| #[trigger] map_of(bs).contains_key(k) <==> has_key(bs2, k) by {
            if has_key(bs, k) {
                let (i3, j3) = choose|i3: int, j3: int| valid_pos(bs, i3, j3) && #[trigger] bs[i3][j3].0 == k;
                assert(bs2[i3][j3] == bs[i3][j3]);
            }
            if has_key(bs2, k) {
                let (i3, j3) = choose|i3: int, j3: int| valid_pos(bs2, i3, j3) && #[trigger] bs2[i3][j3].0 == k;
                assert(bs2[i3][j3] == bs[i3][j3]);
            }
        }
        assert forall|i2: int, j2: int| valid_pos(bs2, i2, j2) implies map_of(bs)[#[trigger] bs2[i2][j2].0]
            == bs2[i2][j2].1 by {
            assert(bs2[i2][j2] == bs[i2][j2]);
            lemma_map_of_at(bs, i2, j2);
        }
        lemma_map_of_equals(bs2, map_of(bs));
        lemma_map_of_len(bs2);
    } else {
        let i = bs.len() - 1;
        let j = bs[i].len() - 1;
        let k = bs[i][j].0;
        let bs2 = bs.update(i, swap_removed(bs[i], j));
        lemma_swap_remove(bs, i, j, 0);
        lemma_map_of_len(bs2);
        lemma_map_of_at(bs, i, j);
        assert(map_of(bs).dom() =~= map_of(bs2).dom().insert(k));
    }
}

} // verus!
