//! What holds of the map across its operations. Each law is stated over the models that the
//! operations' contracts use: the map view (`@`), `insert_all`, the capacity and the load
//! factor.
use vstd::arithmetic::power2::pow2;
use vstd::prelude::*;

use crate::int_key::IntKey;
use vstd::std_specs::cmp::PartialEqSpec;

use crate::buckets::enumerates;
use crate::prim_int::SealedInt;
use crate::{contained_in, insert_all, load_ok, spec_lim, IntMap};

verus! {

/// The keys of the pairs of `s` are all different.
pub open spec fn keys_distinct<K, V>(s: Seq<(K, V)>) -> bool {
    forall|p1: int, p2: int|
        0 <= p1 < s.len() && 0 <= p2 < s.len() && p1 != p2 ==> (#[trigger] s[p1]).0 != (
        #[trigger] s[p2]).0
}

/// A read gives back what the last write of the key wrote, and what was there before for
/// every other key (`insert` followed by `get`).
pub proof fn law_get_after_insert<K, V>(m: Map<K, V>, k: K, v: V, k2: K)
    ensures
        m.insert(k, v).get(k2) == if k2 == k {
            Some(v)
        } else {
            m.get(k2)
        },
{
}

/// Removing a key that was just inserted, and was missing before, gives back the map
/// (`insert` followed by `remove`).
pub proof fn law_remove_undoes_insert<K, V>(m: Map<K, V>, k: K, v: V)
    requires
        !m.contains_key(k),
    ensures
        m.insert(k, v).remove(k) == m,
{
    assert(m.insert(k, v).remove(k) =~= m);
}

/// A second write of a key replaces the first.
pub proof fn law_insert_twice<K, V>(m: Map<K, V>, k: K, v1: V, v2: V)
    ensures
        m.insert(k, v1).insert(k, v2) == m.insert(k, v2),
{
    assert(m.insert(k, v1).insert(k, v2) =~= m.insert(k, v2));
}

/// After a removal the key is missing, whatever was there before.
pub proof fn law_get_after_remove<K, V>(m: Map<K, V>, k: K)
    ensures
        m.remove(k).get(k) is None,
{
}

/// Inserting a new key adds one to the length; overwriting a key keeps it.
pub proof fn law_len_after_insert<K, V>(m: Map<K, V>, k: K, v: V)
    requires
        m.dom().finite(),
    ensures
        m.insert(k, v).len() == if m.contains_key(k) {
            m.len()
        } else {
            m.len() + 1
        },
{
    if m.contains_key(k) {
        assert(m.insert(k, v).dom() =~= m.dom());
    }
}

/// Removing a present key takes one from the length; removing a missing key keeps it.
pub proof fn law_len_after_remove<K, V>(m: Map<K, V>, k: K)
    requires
        m.dom().finite(),
    ensures
        m.remove(k).len() == if m.contains_key(k) {
            m.len() - 1
        } else {
            m.len() as int
        },
{
    if !m.contains_key(k) {
        assert(m.remove(k).dom() =~= m.dom());
    }
}

#[verifier::spinoff_prover]
/// What inserting pairs with distinct keys in order leaves: each key of the pairs gets its
/// pair's value, every other key keeps its value.
pub proof fn lemma_insert_all_distinct<K, V>(m: Map<K, V>, s: Seq<(K, V)>)
    requires
        keys_distinct(s),
    ensures
        forall|k: K|
            #[trigger] insert_all(m, s).contains_key(k) <==> (m.contains_key(k) || exists|p: int|
                0 <= p < s.len() && s[p].0 == k),
        forall|p: int| 0 <= p < s.len() ==> insert_all(m, s)[#[trigger] s[p].0] == s[p].1,
        forall|k: K|
            m.contains_key(k) && !(exists|p: int| 0 <= p < s.len() && s[p].0 == k)
                ==> #[trigger] insert_all(m, s)[k] == m[k],
    decreases s.len(),
{
    if s.len() > 0 {
        let init = s.drop_last();
        assert(keys_distinct(init)) by {
            assert forall|p1: int, p2: int|
                0 <= p1 < init.len() && 0 <= p2 < init.len() && p1 != p2 implies (
                #[trigger] init[p1]).0 != (#[trigger] init[p2]).0 by {
                assert(init[p1] == s[p1] && init[p2] == s[p2]);
            }
        }
        lemma_insert_all_distinct(m, init);
        let n = s.len() - 1;
        let prev = insert_all(m, init);
        assert(insert_all(m, s) == prev.insert(s[n].0, s[n].1));
        assert forall|k: K|
            #[trigger] insert_all(m, s).contains_key(k) <==> (m.contains_key(k) || exists|p: int|
                0 <= p < s.len() && s[p].0 == k) by {
            if exists|p: int| 0 <= p < s.len() && s[p].0 == k {
                let p = choose|p: int| 0 <= p < s.len() && s[p].0 == k;
                if p < n {
                    assert(init[p].0 == k);
                }
            }
            if exists|p: int| 0 <= p < init.len() && init[p].0 == k {
                let p = choose|p: int| 0 <= p < init.len() && init[p].0 == k;
                assert(s[p].0 == k);
            }
        }
        assert forall|p: int| 0 <= p < s.len() implies insert_all(m, s)[#[trigger] s[p].0] == s[p].1 by {
            if p < n {
                assert(init[p] == s[p]);
                assert(s[p].0 != s[n].0);
            }
        }
        assert forall|k: K|
            m.contains_key(k) && !(exists|p: int| 0 <= p < s.len() && s[p].0 == k) implies #[trigger] insert_all(
            m,
            s,
        )[k] == m[k] by {
            assert(s[n].0 != k);
            if exists|p: int| 0 <= p < init.len() && init[p].0 == k {
                let p = choose|p: int| 0 <= p < init.len() && init[p].0 == k;
                assert(s[p].0 == k);
            }
            assert(prev[k] == m[k]);
        }
    }
}

/// Inserting pairs with distinct keys gives the same map whatever their order: two
/// sequences that hold the same pairs build the same map (`from_iter` of a sequence and of
/// its reverse are equal maps).
pub proof fn law_insert_order_irrelevant<K, V>(m: Map<K, V>, s1: Seq<(K, V)>, s2: Seq<(K, V)>)
    requires
        keys_distinct(s1),
        keys_distinct(s2),
        forall|x: (K, V)|
            #![trigger s1.contains(x)]
            #![trigger s2.contains(x)]
            s1.contains(x) <==> s2.contains(x),
    ensures
        insert_all(m, s1) == insert_all(m, s2),
{
    lemma_insert_all_distinct(m, s1);
    lemma_insert_all_distinct(m, s2);
    let a = insert_all(m, s1);
    let b = insert_all(m, s2);
    assert forall|k: K| #[trigger] a.contains_key(k) <==> b.contains_key(k) by {
        if exists|p: int| 0 <= p < s1.len() && s1[p].0 == k {
            let p = choose|p: int| 0 <= p < s1.len() && s1[p].0 == k;
            assert(s1.contains(s1[p]));
            let q = choose|q: int| 0 <= q < s2.len() && s2[q] == s1[p];
            assert(s2[q].0 == k);
        }
        if exists|p: int| 0 <= p < s2.len() && s2[p].0 == k {
            let p = choose|p: int| 0 <= p < s2.len() && s2[p].0 == k;
            assert(s2.contains(s2[p]));
            let q = choose|q: int| 0 <= q < s1.len() && s1[q] == s2[p];
            assert(s1[q].0 == k);
        }
    }
    assert forall|k: K| #[trigger] a.contains_key(k) implies a[k] == b[k] by {
        if exists|p: int| 0 <= p < s1.len() && s1[p].0 == k {
            let p = choose|p: int| 0 <= p < s1.len() && s1[p].0 == k;
            assert(s1.contains(s1[p]));
            let q = choose|q: int| 0 <= q < s2.len() && s2[q] == s1[p];
            assert(a[s1[p].0] == s1[p].1);
            assert(b[s2[q].0] == s2[q].1);
        } else {
            if exists|p: int| 0 <= p < s2.len() && s2[p].0 == k {
                let p = choose|p: int| 0 <= p < s2.len() && s2[p].0 == k;
                assert(s2.contains(s2[p]));
                let q = choose|q: int| 0 <= q < s1.len() && s1[q] == s2[p];
                assert(s1[q].0 == k);
            }
        }
    }
    assert(a =~= b);
}

/// Inserting pairs with distinct keys, none of them already present, adds their number to
/// the length (extending a map by a disjoint one).
pub proof fn law_insert_all_len<K, V>(m: Map<K, V>, s: Seq<(K, V)>)
    requires
        m.dom().finite(),
        keys_distinct(s),
        forall|p: int| 0 <= p < s.len() ==> !m.contains_key(#[trigger] s[p].0),
    ensures
        insert_all(m, s).dom().finite(),
        insert_all(m, s).len() == m.len() + s.len(),
    decreases s.len(),
{
    if s.len() > 0 {
        let init = s.drop_last();
        let n = s.len() - 1;
        assert(keys_distinct(init)) by {
            assert forall|p1: int, p2: int|
                0 <= p1 < init.len() && 0 <= p2 < init.len() && p1 != p2 implies (
                #[trigger] init[p1]).0 != (#[trigger] init[p2]).0 by {
                assert(init[p1] == s[p1] && init[p2] == s[p2]);
            }
        }
        assert forall|p: int| 0 <= p < init.len() implies !m.contains_key(#[trigger] init[p].0) by {
            assert(init[p] == s[p]);
        }
        law_insert_all_len(m, init);
        lemma_insert_all_distinct(m, init);
        let prev = insert_all(m, init);
        if prev.contains_key(s[n].0) {
            let p = choose|p: int| 0 <= p < init.len() && init[p].0 == s[n].0;
            assert(s[p].0 == s[n].0);
        }
    }
}

/// Two maps with the same pairs compare equal, when `==` of the values is reflexive.
pub proof fn law_eq_of_same_pairs<K, V: PartialEq>(m1: Map<K, V>, m2: Map<K, V>)
    requires
        m1 == m2,
        forall|v: V| #[trigger] v.eq_spec(&v),
    ensures
        contained_in(m1, m2),
        contained_in(m2, m1),
{
}

/// The number of slots of a well-formed map is zero or a power of two: `2^e` for its
/// exponent `e`.
pub proof fn law_capacity_power_of_two<K: IntKey, V>(m: IntMap<K, V>)
    requires
        m.wf(),
    ensures
        m.spec_capacity() == spec_lim(m.size_exp()),
        m.size_exp() > 0 ==> m.spec_capacity() == pow2(m.size_exp()),
{
    m.lemma_wf();
}

/// A map whose growth stopped at exponent `s` holds its pairs within the load factor there:
/// `count * 1000 / capacity <= load_factor`, with a capacity of at least two slots.
pub proof fn law_load_within_factor(s0: nat, s1: nat, count: nat, lf: nat)
    requires
        crate::grown_exp(s0, s1, count, lf),
    ensures
        load_ok(count, pow2(s1), lf),
        pow2(s1) >= 2,
{
    vstd::arithmetic::power2::lemma_pow2_unfold(s1);
    vstd::arithmetic::power2::lemma_pow2_pos((s1 - 1) as nat);
}

/// When `==` of the values means equality, `eq` holds of two maps exactly when they hold
/// the same pairs, whatever order they were built in and whatever their capacity; so it is
/// symmetric.
pub proof fn law_eq_is_map_equality<K, V: PartialEq>(m1: Map<K, V>, m2: Map<K, V>)
    requires
        forall|a: V, b: V| #[trigger] a.eq_spec(&b) <==> a == b,
    ensures
        (contained_in(m1, m2) && contained_in(m2, m1)) <==> m1 == m2,
        (contained_in(m1, m2) && contained_in(m2, m1)) <==> (contained_in(m2, m1) && contained_in(
            m1,
            m2,
        )),
{
    if contained_in(m1, m2) && contained_in(m2, m1) {
        assert forall|k: K| m1.contains_key(k) implies m1[k] == m2[k] by {
            assert(m2[k].eq_spec(&m1[k]));
        }
        assert(m1 =~= m2);
    }
    if m1 == m2 {
        assert forall|k: K| #[trigger] m1.contains_key(k) implies m2.contains_key(k) && m2[k].eq_spec(
            &m1[k],
        ) by {
            assert(m2[k] == m1[k]);
        }
    }
}

/// In a table with slots, the bucket of a key is its integer times the prime, masked with
/// the number of slots minus one; it is one of the slots.
pub proof fn law_bucket_of_key<K: IntKey, V>(m: IntMap<K, V>, k: K)
    requires
        m.wf(),
        m.spec_capacity() > 0,
    ensures
        m.slots()(k) == k.int_of().spec_calc_index((m.spec_capacity() - 1) as usize, K::PRIME),
        0 <= m.slots()(k) < m.spec_capacity(),
{
    m.lemma_wf();
    k.int_of().lemma_calc_index_bounded((m.spec_capacity() - 1) as usize, K::PRIME);
}

/// A walk that writes through a mutable iterator keeps the keys: when the pairs `s1` it ends
/// with have the keys of the pairs `s0` it started with, in the same places, the map keeps
/// its keys and length and holds the values of `s1` (the last value written for each key).
pub proof fn law_walk_keeps_keys<K, V>(s0: Seq<(K, V)>, s1: Seq<(K, V)>, m0: Map<K, V>, m1: Map<K, V>)
    requires
        enumerates(s0, m0),
        enumerates(s1, m1),
        s1.len() == s0.len(),
        forall|p: int| 0 <= p < s0.len() ==> (#[trigger] s1[p]).0 == s0[p].0,
    ensures
        m1.dom() == m0.dom(),
        m1.len() == m0.len(),
        forall|p: int| 0 <= p < s1.len() ==> m1[(#[trigger] s1[p]).0] == s1[p].1,
{
    assert forall|k: K| m0.contains_key(k) <==> m1.contains_key(k) by {
        if m0.contains_key(k) {
            let p = choose|p: int| 0 <= p < s0.len() && (#[trigger] s0[p]).0 == k;
            assert(s1[p].0 == k);
            assert(m1.contains_key(s1[p].0));
        }
        if m1.contains_key(k) {
            let p = choose|p: int| 0 <= p < s1.len() && (#[trigger] s1[p]).0 == k;
            assert(s0[p].0 == k);
            assert(m0.contains_key(s0[p].0));
        }
    }
    assert(m1.dom() =~= m0.dom());
    assert forall|p: int| 0 <= p < s1.len() implies m1[(#[trigger] s1[p]).0] == s1[p].1 by {
        assert(m1.contains_key(s1[p].0));
    }
}

} // verus!
