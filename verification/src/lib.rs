//! Specialized hashmap for integer based keys.
//!
//! Keys are hashed by multiplying their integer with a large prime; the table of buckets is
//! kept at a power of two so that the bucket of a hash is found with a bit mask.
//!
//! Be aware that no effort is made against DoS attacks.

mod buckets;
mod counting;
mod entry;
mod hashing;
mod highest_prime;
mod int_key;
mod iter;
mod laws;
mod prim_int;

pub use buckets::{
    Buckets, bucket_index, entries, grouped, has_key, has_pair, holds_key, in_slot, keeps, key_pos,
    keys_unique, map_of, rehashed, set_value, slot_fn, empty_buckets,
    placed, put_pair, seqs_of, swap_removed, take_pair, total, valid_pos,
};
pub use entry::{Entry, OccupiedEntry, VacantEntry};
pub use hashing::{
    law_bucket_i128, law_bucket_i16, law_bucket_i32, law_bucket_i64, law_bucket_i8,
    law_bucket_isize, law_bucket_u128, law_bucket_u16, law_bucket_u32, law_bucket_u64,
    law_bucket_u8, law_bucket_usize, law_calc_index_spread_u128, law_calc_index_spread_u16,
    law_calc_index_spread_u32, law_calc_index_spread_u64, law_calc_index_spread_u8,
    law_calc_index_u128, law_calc_index_u16, law_calc_index_u32, law_calc_index_u64,
    law_calc_index_u8, law_calc_index_usize, law_key_int_i128, law_key_int_i16, law_key_int_i32,
    law_key_int_i64, law_key_int_i8, law_key_int_isize, law_key_int_unsigned, law_prime_inverses,
    spread_of,
};
pub use highest_prime::HighestPrime;
pub use int_key::IntKey;
pub use laws::{
    keys_distinct, law_capacity_power_of_two, law_get_after_insert, law_get_after_remove,
    law_eq_of_same_pairs, law_eq_is_map_equality, law_bucket_of_key, law_walk_keeps_keys, law_insert_all_len, law_insert_order_irrelevant, law_insert_twice, law_len_after_insert,
    law_len_after_remove, law_load_within_factor, law_remove_undoes_insert,
    lemma_insert_all_distinct,
};
pub use iter::{Drain, IntoIter, Iter, IterMut, Keys, Values, ValuesMut};
pub use prim_int::Int;

use counting::{collision_map, len_count, lemma_distinct_lengths_fit, lemma_len_count_bounded, lemma_len_count_take, seq_sum};
use buckets::{lemma_filter_none, lemma_filter_push, lemma_filter_congruent, lemma_keeps_other_bucket, lemma_rehashed_twice, lemma_slot_submask, lemma_grouped_empty, lemma_grouped_push, lemma_key_pos, lemma_no_key_pos, lemma_reverse_bucket, lemma_total_take, lemma_total_take_mono, enumerates, lemma_entries_enumerate, lemma_split_bucket, lemma_set_value, disjoint_keys, lemma_move_last, lemma_same_pairs, split_pairs, lemma_map_of_at, lemma_map_of_len, lemma_map_of_no_pairs, lemma_push, lemma_swap_remove};
use vstd::arithmetic::power2::*;
use prim_int::SealedInt;
use vstd::prelude::*;
use vstd::std_specs::cmp::PartialEqSpec;

verus! {

/// The number of slots of a table whose size exponent is `size`.
pub open spec fn spec_lim(size: nat) -> nat {
    if size == 0 {
        0
    } else {
        pow2(size)
    }
}

/// `count` pairs fit into `slots` slots without going over the load factor `lf`, which is
/// given per thousand.
pub open spec fn load_ok(count: nat, slots: nat, lf: nat) -> bool {
    slots > 0 && (count * 1000) / slots <= lf
}

/// The larger of two numbers.
pub open spec fn max_nat(a: nat, b: nat) -> nat {
    if a >= b {
        a
    } else {
        b
    }
}

/// Growing a table of exponent `s0` to hold `count` pairs within the load factor `lf` ends
/// at exponent `s1`: the table is doubled, starting from at least two slots, until the load
/// is within the factor, and not further.
pub open spec fn grown_exp(s0: nat, s1: nat, count: nat, lf: nat) -> bool {
    &&& s1 >= max_nat(s0, 1)
    &&& load_ok(count, pow2(s1), lf)
    &&& forall|t: nat| max_nat(s0, 1) <= t < s1 ==> !load_ok(count, #[trigger] pow2(t), lf)
}

/// `new_m` is what is left of `old_m` when only the pairs for which `f` answers true are kept:
/// each kept pair keeps its value and was answered true, each dropped pair was answered false.
pub open spec fn retained_by<K, V, F: FnMut(K, &V) -> bool>(
    old_m: Map<K, V>,
    new_m: Map<K, V>,
    f: F,
) -> bool {
    &&& forall|k: K|
        #[trigger] new_m.contains_key(k) ==> old_m.contains_key(k) && new_m[k] == old_m[k]
            && call_ensures(f, (k, &old_m[k]), true)
    &&& forall|k: K|
        #[trigger] old_m.contains_key(k) && !new_m.contains_key(k) ==> call_ensures(
            f,
            (k, &old_m[k]),
            false,
        )
}

/// Every key of `m1` is a key of `m2`, whose value there equals (by `==` of `V`) its value in
/// `m1`.
pub open spec fn contained_in<K, V: PartialEq>(m1: Map<K, V>, m2: Map<K, V>) -> bool {
    forall|k: K| #[trigger] m1.contains_key(k) ==> m2.contains_key(k) && m2[k].eq_spec(&m1[k])
}

/// Every key of `m1` is a key of `m2`, and `==` of `V` may answer true when asked whether
/// its value in `m2` equals its value in `m1`.
pub open spec fn eq_contained<K, V: PartialEq>(m1: Map<K, V>, m2: Map<K, V>) -> bool {
    forall|k: K|
        #[trigger] m1.contains_key(k) ==> m2.contains_key(k) && call_ensures(
            V::eq,
            (&m2[k], &m1[k]),
            true,
        )
}

/// Some key of `m1` is missing from `m2`, or `==` of `V` may answer false when asked whether
/// its value in `m2` equals its value in `m1`.
pub open spec fn eq_refuted<K, V: PartialEq>(m1: Map<K, V>, m2: Map<K, V>) -> bool {
    exists|k: K|
        #[trigger] m1.contains_key(k) && (!m2.contains_key(k) || call_ensures(
            V::eq,
            (&m2[k], &m1[k]),
            false,
        ))
}

/// The pairs of `s`, inserted in order into `m`.
pub open spec fn insert_all<K, V>(m: Map<K, V>, s: Seq<(K, V)>) -> Map<K, V>
    decreases s.len(),
{
    if s.len() == 0 {
        m
    } else {
        insert_all(m, s.drop_last()).insert(s.last().0, s.last().1)
    }
}

/// Reserving room for `need` pairs in a table of exponent `s0` ends at exponent `s1`: the
/// table is doubled (starting from two slots) until it has at least `need` slots, and not
/// further.
pub open spec fn reserved_exp(s0: nat, s1: nat, need: nat) -> bool {
    &&& s1 >= s0
    &&& spec_lim(s1) >= need
    &&& forall|t: nat| s0 <= t < s1 ==> #[trigger] spec_lim(t) < need
}

/// Inserting `items` one by one into the map `m`, held in a table of exponent `s0`, leaves
/// a table of exponent `s1`: the table grows before each insertion, so it ends grown for the
/// pairs held before the last one.
pub open spec fn extended_exp<K, V>(s0: nat, s1: nat, m: Map<K, V>, items: Seq<(K, V)>, lf: nat) -> bool {
    if items.len() == 0 {
        s1 == s0
    } else {
        grown_exp(s0, s1, insert_all(m, items.drop_last()).len(), lf)
    }
}

/// The exponent that a table of exponent `s0` grows to for `count` pairs within the load
/// factor `lf` (see `grown_exp`, which has one solution).
pub open spec fn grown_to(s0: nat, count: nat, lf: nat) -> nat {
    choose|s1: nat| grown_exp(s0, s1, count, lf)
}

/// The bucket of each key in a table of exponent `s` (at least one).
pub open spec fn table_slots<K: IntKey>(s: nat) -> spec_fn(K) -> int {
    slot_fn((pow2(s) - 1) as usize)
}

/// The buckets and exponent of a table of buckets `bs` and exponent `s0`, load factor `lf`,
/// after `insert` of `(k, v)`: the table grows (pairs rehashed in list order) and the pair is
/// put into the bucket of its key.
pub open spec fn layout_after_insert<K: IntKey, V>(
    bs: Buckets<K, V>,
    s0: nat,
    lf: nat,
    k: K,
    v: V,
) -> (Buckets<K, V>, nat) {
    let s1 = grown_to(s0, map_of(bs).len(), lf);
    let g = if s1 == s0 {
        bs
    } else {
        rehashed(bs, pow2(s1), table_slots::<K>(s1))
    };
    let j = table_slots::<K>(s1)(k);
    (g.update(j, put_pair(g[j], k, v)), s1)
}

/// The buckets and exponent after inserting `items` in order, as `layout_after_insert` says
/// for each.
pub open spec fn layout_after_extend<K: IntKey, V>(
    bs: Buckets<K, V>,
    s0: nat,
    lf: nat,
    items: Seq<(K, V)>,
) -> (Buckets<K, V>, nat)
    decreases items.len(),
{
    if items.len() == 0 {
        (bs, s0)
    } else {
        let prev = layout_after_extend(bs, s0, lf, items.drop_last());
        layout_after_insert(prev.0, prev.1, lf, items.last().0, items.last().1)
    }
}

/// `grown_exp` has at most one solution.
proof fn lemma_grown_exp_unique(s0: nat, a: nat, b: nat, count: nat, lf: nat)
    requires
        grown_exp(s0, a, count, lf),
        grown_exp(s0, b, count, lf),
    ensures
        a == b,
{
    if a < b {
        assert(!load_ok(count, pow2(a), lf));
    } else if b < a {
        assert(!load_ok(count, pow2(b), lf));
    }
}

/// The buckets of `m0` once its table has the size of `m1`'s: unchanged if the size is the
/// same, otherwise each pair in the bucket of its key in `m1`, the pairs of a bucket in the
/// order in which `m0` lists them.
pub open spec fn grown_buckets<K: IntKey, V>(m0: IntMap<K, V>, m1: IntMap<K, V>) -> Buckets<K, V> {
    if m1.size_exp() == m0.size_exp() {
        m0.buckets()
    } else {
        rehashed(m0.buckets(), m1.spec_capacity(), m1.slots())
    }
}

/// The table can be grown to hold `count` pairs within the load factor `lf` without its
/// number of slots going beyond what a `usize` can count.
pub open spec fn load_fits(count: nat, lf: nat) -> bool {
    &&& count * 1000 <= usize::MAX
    &&& load_ok(count, pow2((usize::BITS - 1) as nat), lf)
}

/// The number of non-empty buckets.
pub open spec fn filled<K, V>(bs: Buckets<K, V>) -> nat
    decreases bs.len(),
{
    if bs.len() == 0 {
        0
    } else {
        filled(bs.drop_last()) + if bs.last().len() > 0 {
            1nat
        } else {
            0nat
        }
    }
}

/// The elements of `v` in reverse order.
fn reversed<T>(v: Vec<T>) -> (r: Vec<T>)
    ensures
        r@ == v@.reverse(),
{
    let ghost all = v@;
    let mut v = v;
    let mut r: Vec<T> = Vec::new();
    while v.len() > 0
        invariant
            v@.len() <= all.len(),
            v@ == all.take(v@.len() as int),
            r@ == all.skip(v@.len() as int).reverse(),
        decreases v@.len(),
    {
        let ghost n = v@.len();
        let x = v.pop().unwrap();
        proof {
            assert(v@ =~= all.take(n - 1));
            assert(all.skip(n - 1).reverse() =~= all.skip(n as int).reverse().push(x));
        }
        r.push(x);
    }
    proof {
        assert(all.skip(0) =~= all);
    }
    r
}

/// Fewer pairs fit whenever more pairs fit.
proof fn lemma_load_fits_mono(c1: nat, c2: nat, lf: nat)
    requires
        c1 <= c2,
        load_fits(c2, lf),
    ensures
        load_fits(c1, lf),
{
    let d = pow2((usize::BITS - 1) as nat);
    lemma_pow2_pos((usize::BITS - 1) as nat);
    vstd::arithmetic::div_mod::lemma_div_is_ordered((c1 * 1000) as int, (c2 * 1000) as int, d as int);
}

/// Inserting a prefix of `s` leaves a map whose keys are among those left by inserting all of
/// `s`; both maps are finite when `m` is.
proof fn lemma_insert_all_prefix<K, V>(m: Map<K, V>, s: Seq<(K, V)>, i: int)
    requires
        m.dom().finite(),
        0 <= i <= s.len(),
    ensures
        insert_all(m, s).dom().finite(),
        insert_all(m, s.take(i)).dom().finite(),
        insert_all(m, s.take(i)).dom().subset_of(insert_all(m, s).dom()),
        insert_all(m, s.take(i)).len() <= insert_all(m, s).len(),
    decreases s.len(),
{
    if i == s.len() {
        assert(s.take(i) =~= s);
        if s.len() > 0 {
            lemma_insert_all_prefix(m, s.drop_last(), 0);
        }
    } else {
        let init = s.drop_last();
        lemma_insert_all_prefix(m, init, i);
        assert(s.take(i) =~= init.take(i));
    }
    vstd::set_lib::lemma_len_subset(insert_all(m, s.take(i)).dom(), insert_all(m, s).dom());
}

/// Growth that stopped at `s1` for `c1` pairs, followed by growth that stopped at `s2` for
/// `c2 >= c1` pairs, is one growth from `s0` that stopped at `s2` for `c2` pairs.
proof fn lemma_grown_exp_trans(s0: nat, s1: nat, s2: nat, c1: nat, c2: nat, lf: nat)
    requires
        grown_exp(s0, s1, c1, lf),
        grown_exp(s1, s2, c2, lf),
        c1 <= c2,
    ensures
        grown_exp(s0, s2, c2, lf),
{
    assert forall|t: nat| max_nat(s0, 1) <= t < s2 implies !load_ok(c2, #[trigger] pow2(t), lf) by {
        if t < s1 {
            assert(!load_ok(c1, pow2(t), lf));
            lemma_pow2_pos(t);
            vstd::arithmetic::div_mod::lemma_div_is_ordered(
                (c1 * 1000) as int,
                (c2 * 1000) as int,
                pow2(t) as int,
            );
        }
    }
}

/// A mutable reference to the value of the pair at `(ix, j)`: what is written through it
/// becomes the value of that pair.
fn value_mut_at<K, V>(cache: &mut Vec<Vec<(K, V)>>, ix: usize, j: usize) -> (r: &mut V)
    requires
        ix < old(cache)@.len(),
        j < old(cache)@[ix as int]@.len(),
    ensures
        *r == old(cache)@[ix as int]@[j as int].1,
        seqs_of(final(cache)@) == seqs_of(old(cache)@).update(
            ix as int,
            seqs_of(old(cache)@)[ix as int].update(
                j as int,
                (old(cache)@[ix as int]@[j as int].0, *final(r)),
            ),
        ),
{
    let vals = &mut cache[ix];
    let kv = &mut vals[j];
    &mut kv.1
}

/// Tells whether a map of `count` pairs can be grown to the load factor `load_factor` (per
/// thousand) without its number of slots going beyond what a `usize` can count.
pub fn fits_load(count: usize, load_factor: usize) -> (r: bool)
    ensures
        r == load_fits(count as nat, load_factor as nat),
{
    let big: usize = usize::MAX / 2 + 1;
    proof {
        vstd::arithmetic::power2::lemma2_to64();
        vstd::arithmetic::power2::lemma2_to64_rest();
        if usize::BITS == 32 {
            assert(usize::MAX == 0xffff_ffff);
            assert(big == pow2(31));
        } else {
            assert(usize::BITS == 64);
            assert(usize::MAX == 0xffff_ffff_ffff_ffff);
            assert(big == pow2(63));
        }
    }
    match count.checked_mul(1000) {
        None => false,
        Some(scaled) => scaled / big <= load_factor,
    }
}

/// A hashmap that maps an integer based `K` to `V`.
#[derive(Clone)]
pub struct IntMap<K, V> {
    // The slots for the key/value pairs. Two or more pairs occupy the same slot if they have
    // a hash collision.
    cache: Vec<Vec<(K, V)>>,
    // The size of `cache` as binary exponent. The actual size of `cache` is `2^size`.
    size: u32,
    // A bit mask for calculating an index for `cache`. Must be recomputed if `size` changes.
    mod_mask: usize,
    // The number of stored key/value pairs.
    count: usize,
    // The ratio between key/value pairs and available slots that we try to ensure,
    // multiplied by 1000.
    load_factor: usize,
}

impl<K, V> IntMap<K, V> {
    /// The buckets of the table as sequences.
    pub closed spec fn buckets(&self) -> Buckets<K, V> {
        seqs_of(self.cache@)
    }

    /// The map from keys to values that the table holds.
    pub closed spec fn spec_map(&self) -> Map<K, V> {
        map_of(self.buckets())
    }

    /// The number of slots.
    pub closed spec fn spec_capacity(&self) -> nat {
        self.cache@.len()
    }

    /// The binary exponent of the number of slots (zero for a table without slots).
    pub closed spec fn size_exp(&self) -> nat {
        self.size as nat
    }

    /// The load factor, per thousand.
    pub closed spec fn spec_load_factor(&self) -> nat {
        self.load_factor as nat
    }

    /// The pairs of the table in the order in which its iterators hand them out: bucket by
    /// bucket, and within a bucket in the order the pairs are stored.
    pub closed spec fn pairs(&self) -> Seq<(K, V)> {
        entries(self.buckets())
    }
}

impl<K: IntKey, V> Default for IntMap<K, V> {
    fn default() -> (r: Self)
        ensures
            r.wf(),
            r@ == Map::<K, V>::empty(),
            r.spec_capacity() == 0,
            r.size_exp() == 0,
            r.spec_load_factor() == 909,
    {
        Self::new()
    }
}

/// Compares two values with `==` of their type: the result is one that `V::eq` may give.
fn call_eq<V: PartialEq>(a: &V, b: &V) -> (r: bool)
    ensures
        call_ensures(V::eq, (a, b), r),
{
    let f = V::eq;
    f(a, b)
}

impl<K: IntKey, V: PartialEq> IntMap<K, V> {
    /// Every pair of `self` is in `other` with an equal value.
    fn contained_in(&self, other: &Self) -> (r: bool)
        requires
            self.wf(),
            other.wf(),
        ensures
            V::obeys_eq_spec() ==> r == contained_in(self@, other@),
            r ==> eq_contained(self@, other@),
            !r ==> eq_refuted(self@, other@),
    {
        let mut it = self.iter();
        loop
            invariant
                it.wf(),
                other.wf(),
                enumerates(it.seq(), self@),
                0 <= it.index() <= it.seq().len(),
                V::obeys_eq_spec() ==> forall|p: int|
                    0 <= p < it.index() ==> #[trigger] other@.contains_key(it.seq()[p].0)
                        && other@[it.seq()[p].0].eq_spec(&it.seq()[p].1),
                forall|p: int|
                    0 <= p < it.index() ==> #[trigger] other@.contains_key(it.seq()[p].0)
                        && call_ensures(V::eq, (&other@[it.seq()[p].0], &it.seq()[p].1), true),
            decreases it.seq().len() - it.index(),
        {
            let ghost i = it.index();
            let ghost s = it.seq();
            match it.next() {
                None => {
                    proof {
                        assert forall|k: K| #[trigger] self@.contains_key(k) implies other@.contains_key(k)
                            && call_ensures(V::eq, (&other@[k], &self@[k]), true) by {
                            let p = choose|p: int| 0 <= p < it.seq().len() && (#[trigger] it.seq()[p]).0 == k;
                            assert(other@.contains_key(it.seq()[p].0));
                        }
                        if V::obeys_eq_spec() {
                            assert forall|k: K| #[trigger] self@.contains_key(k) implies other@.contains_key(
                                k,
                            ) && other@[k].eq_spec(&self@[k]) by {
                                let p = choose|p: int| 0 <= p < it.seq().len() && (#[trigger] it.seq()[p]).0 == k;
                                assert(other@.contains_key(it.seq()[p].0));
                            }
                        }
                    }
                    return true;
                },
                Some(kv) => {
                    let (k, a) = kv;
                    match other.get(k) {
                        Some(b) => {
                            let same = call_eq(b, a);
                            if !same {
                                proof {
                                    assert(0 <= i < s.len());
                                    assert(k == s[i].0);
                                    assert(self@.contains_key(s[i].0));
                                    assert(self@[k] == *a);
                                    assert(self@.contains_key(k) && call_ensures(
                                        V::eq,
                                        (&other@[k], &self@[k]),
                                        false,
                                    ));
                                }
                                return false;
                            }
                        },
                        None => {
                            proof {
                                assert(self@.contains_key(s[i].0));
                                assert(self@.contains_key(k) && !other@.contains_key(k));
                            }
                            return false;
                        },
                    }
                },
            }
        }
    }

    /// The two maps hold the same keys with equal values.
    ///
    /// Values are compared with `==` of `V`.
    pub fn eq(&self, other: &Self) -> (r: bool)
        requires
            self.wf(),
            other.wf(),
        ensures
            V::obeys_eq_spec() ==> r == (contained_in(self@, other@) && contained_in(other@, self@)),
            r ==> eq_contained(self@, other@) && eq_contained(other@, self@),
            !r ==> eq_refuted(self@, other@) || eq_refuted(other@, self@),
    {
        self.contained_in(other) && other.contained_in(self)
    }
}

impl<K, V> View for IntMap<K, V> {
    type V = Map<K, V>;

    open spec fn view(&self) -> Map<K, V> {
        self.spec_map()
    }
}

impl<K: IntKey, V> IntMap<K, V> {
    /// The table is consistent: its size, mask and count agree with its buckets, no key
    /// occurs twice and every pair sits in the bucket of its key.
    pub closed spec fn wf(&self) -> bool {
        let bs = self.buckets();
        &&& self.size < usize::BITS
        &&& self.cache@.len() == spec_lim(self.size as nat)
        &&& self.mod_mask == (if self.size == 0 {
            0
        } else {
            self.cache@.len() - 1
        })
        &&& keys_unique(bs)
        &&& placed(bs, self.mod_mask)
        &&& self.count == total(bs)
    }

    /// The bucket of each key in the table as it is now.
    pub closed spec fn slots(&self) -> spec_fn(K) -> int {
        slot_fn(self.mod_mask)
    }

    /// What a well-formed table shows of itself: a finite map with as many keys as pairs
    /// stored, and as many slots as its exponent says.
    pub(crate) proof fn lemma_wf(&self)
        requires
            self.wf(),
        ensures
            self@.dom().finite(),
            self@.len() == self.count,
            self.spec_capacity() == spec_lim(self.size_exp()),
            self.size_exp() < usize::BITS,
            enumerates(entries(self.buckets()), self@),
            self.spec_capacity() > 0 ==> self.mod_mask == self.spec_capacity() - 1,
    {
        lemma_map_of_len(self.buckets());
        lemma_entries_enumerate(self.buckets());
    }

    /// What `insert` leaves, told by its contract, is what `layout_after_insert` says.
    proof fn lemma_insert_layout(old_m: Self, new_m: Self, k: K, v: V)
        requires
            old_m.wf(),
            new_m.wf(),
            grown_exp(old_m.size_exp(), new_m.size_exp(), old_m@.len(), old_m.spec_load_factor()),
            new_m.buckets() == grown_buckets(old_m, new_m).update(
                new_m.slots()(k),
                put_pair(grown_buckets(old_m, new_m)[new_m.slots()(k)], k, v),
            ),
        ensures
            (new_m.buckets(), new_m.size_exp()) == layout_after_insert(
                old_m.buckets(),
                old_m.size_exp(),
                old_m.spec_load_factor(),
                k,
                v,
            ),
    {
        let s1 = grown_to(old_m.size_exp(), map_of(old_m.buckets()).len(), old_m.spec_load_factor());
        lemma_grown_exp_unique(
            old_m.size_exp(),
            s1,
            new_m.size_exp(),
            old_m@.len(),
            old_m.spec_load_factor(),
        );
        new_m.lemma_wf();
        assert(new_m.size_exp() >= 1);
        assert(new_m.spec_capacity() == pow2(s1));
        assert(new_m.mod_mask == (pow2(s1) - 1) as usize);
        assert(new_m.slots() == table_slots::<K>(s1));
    }

    /// Creates a new [`IntMap`].
    ///
    /// The [`IntMap`] is initially created with a capacity of 0, so it will not allocate until
    /// it is first inserted into.
    pub fn new() -> (r: Self)
        ensures
            r.wf(),
            r@ == Map::<K, V>::empty(),
            r.spec_capacity() == 0,
            r.size_exp() == 0,
            r.spec_load_factor() == 909,
    {
        let r = Self { cache: Vec::new(), size: 0, count: 0, mod_mask: 0, load_factor: 909 };
        proof {
            lemma_map_of_no_pairs(r.buckets());
        }
        r
    }

    /// Returns true if the [`IntMap`] is empty.
    pub fn is_empty(&self) -> (r: bool)
        requires
            self.wf(),
        ensures
            r == (self@.len() == 0),
            r == (self@ == Map::<K, V>::empty()),
    {
        proof {
            self.lemma_wf();
            if self@.len() == 0 {
                assert(self@.dom() =~= Set::<K>::empty());
                assert(self@ =~= Map::<K, V>::empty());
            }
        }
        self.count == 0
    }

    /// Returns the number of key/value pairs in the [`IntMap`].
    pub fn len(&self) -> (r: usize)
        requires
            self.wf(),
        ensures
            r == self@.len(),
    {
        proof {
            self.lemma_wf();
        }
        self.count
    }

    /// Returns the total number of available slots.
    pub fn capacity(&self) -> (r: usize)
        requires
            self.wf(),
        ensures
            r == self.spec_capacity(),
            r == spec_lim(self.size_exp()),
    {
        self.cache.len()
    }

    /// The number of slots of the table, computed from its exponent.
    fn lim(&self) -> (r: usize)
        requires
            self.wf(),
        ensures
            r == spec_lim(self.size as nat),
            r == self.cache@.len(),
    {
        if self.size == 0 {
            0
        } else {
            proof {
                vstd::bits::lemma_usize_pow2_no_overflow(self.size as nat);
                vstd::bits::lemma_usize_shl_is_mul(1, self.size as usize);
            }
            1usize << (self.size as usize)
        }
    }

    /// The bucket of `key`, for a table that has at least one slot.
    fn index_of(&self, key: K) -> (r: usize)
        requires
            self.wf(),
            self.cache@.len() > 0,
        ensures
            r == bucket_index(key, self.mod_mask),
            r < self.cache@.len(),
    {
        key.into_int().calc_index(self.mod_mask, K::PRIME)
    }

    /// The position of `key` in bucket `ix`, if it is there.
    fn find_in_bucket(&self, ix: usize, key: K) -> (r: Option<usize>)
        requires
            self.wf(),
            ix < self.cache@.len(),
            ix == bucket_index(key, self.mod_mask),
        ensures
            match r {
                Some(j) => j < self.cache@[ix as int]@.len() && self.cache@[ix as int]@[j as int].0
                    == key && self@.contains_key(key) && self@[key]
                    == self.cache@[ix as int]@[j as int].1,
                None => !self@.contains_key(key),
            },
    {
        let vals = &self.cache[ix];
        let k = key.into_int();
        let mut j: usize = 0;
        while j < vals.len()
            invariant
                self.wf(),
                ix < self.cache@.len(),
                ix == bucket_index(key, self.mod_mask),
                *vals == self.cache@[ix as int],
                k == key.int_of(),
                j <= vals@.len(),
                forall|j2: int| 0 <= j2 < j ==> (#[trigger] vals@[j2]).0.int_of() != k,
            decreases vals@.len() - j,
        {
            if vals[j].0.into_int().int_eq(k) {
                proof {
                    K::lemma_int_of_injective(vals@[j as int].0, key);
                    lemma_map_of_at(self.buckets(), ix as int, j as int);
                }
                return Some(j);
            }
            j = j + 1;
        }
        proof {
            let bs = self.buckets();
            if has_key(bs, key) {
                let (i2, j2) = choose|i2: int, j2: int|
                    valid_pos(bs, i2, j2) && #[trigger] bs[i2][j2].0 == key;
                assert(bucket_index(bs[i2][j2].0, self.mod_mask) == i2);
                assert(vals@[j2] == bs[i2][j2]);
            }
        }
        None
    }

    /// Gets the value for the given key from the [`IntMap`].
    pub fn get(&self, key: K) -> (r: Option<&V>)
        requires
            self.wf(),
        ensures
            match r {
                Some(v) => self@.contains_key(key) && *v == self@[key],
                None => !self@.contains_key(key),
            },
    {
        if self.is_empty() {
            return None;
        }
        proof {
            self.lemma_wf();
            if self.cache@.len() == 0 {
                assert(total(self.buckets()) == 0);
            }
        }
        let ix = self.index_of(key);
        match self.find_in_bucket(ix, key) {
            Some(j) => Some(&self.cache[ix][j].1),
            None => None,
        }
    }

    /// Doubles the number of slots (or makes two, for a table without slots) and moves every
    /// pair into its bucket in the larger table.
    fn increase_cache(&mut self)
        requires
            old(self).wf(),
            old(self).size + 1 < usize::BITS,
        ensures
            final(self).wf(),
            final(self)@ == old(self)@,
            final(self).size == old(self).size + 1,
            final(self).count == old(self).count,
            final(self).load_factor == old(self).load_factor,
            final(self).buckets() == rehashed(
                old(self).buckets(),
                final(self).spec_capacity(),
                slot_fn(final(self).mod_mask),
            ),
            old(self).mod_mask & final(self).mod_mask == old(self).mod_mask,
    {
        let ghost orig = self.buckets();
        let ghost old_mask = self.mod_mask;
        self.size = self.size + 1;
        proof {
            vstd::bits::lemma_usize_pow2_no_overflow(self.size as nat);
            vstd::bits::lemma_usize_shl_is_mul(1, self.size as usize);
        }
        let new_lim: usize = 1usize << (self.size as usize);
        self.mod_mask = new_lim - 1;
        proof {
            let a = (self.size - 1) as usize;
            let nm = self.mod_mask;
            if a == 0 {
                assert(old_mask == 0);
                assert(0usize & nm == 0usize) by (bit_vector);
            } else {
                vstd::bits::lemma_usize_pow2_no_overflow(a as nat);
                vstd::bits::lemma_usize_shl_is_mul(1, a);
                let b = (a + 1) as usize;
                assert(b == self.size as usize);
                assert(old_mask == ((1usize << a) - 1) as usize);
                assert(nm == ((1usize << b) - 1) as usize);
                assert((((1usize << a) - 1) as usize) & (((1usize << b) - 1) as usize) == (((
                1usize << a) - 1) as usize)) by (bit_vector)
                    requires
                        1 <= a < usize::BITS - 1,
                        b == a + 1,
                ;
            }
        }
        let mut vec: Vec<Vec<(K, V)>> = Vec::new();
        let mut n: usize = 0;
        while n < new_lim
            invariant
                n <= new_lim,
                vec@.len() == n,
                forall|t: int| 0 <= t < n ==> (#[trigger] vec@[t])@.len() == 0,
            decreases new_lim - n,
        {
            vec.push(Vec::new());
            n = n + 1;
        }
        std::mem::swap(&mut self.cache, &mut vec);
        let ghost slot = slot_fn::<K>(self.mod_mask);
        proof {
            lemma_map_of_no_pairs(self.buckets());
            assert(seqs_of(vec@) == orig);
            lemma_grouped_empty::<K, V>(new_lim as nat, slot);
            assert(orig.take(0) =~= Seq::<Seq<(K, V)>>::empty());
            assert(entries(orig.take(0)) =~= Seq::<(K, V)>::empty());
            let g = grouped(entries(orig.take(0)), new_lim as nat, slot);
            assert forall|j: int| 0 <= j < new_lim implies #[trigger] self.buckets()[j] =~= g[j] by {
                assert(self.buckets()[j] == self.cache@[j]@);
                assert(self.cache@[j]@.len() == 0);
                assert(g[j].len() == 0);
            }
            assert(self.buckets() =~= g);
        }
        let mut i: usize = 0;
        while i < vec.len()
            invariant
                self.size == old(self).size + 1,
                self.size < usize::BITS,
                self.count == old(self).count,
                self.load_factor == old(self).load_factor,
                self.cache@.len() == new_lim,
                new_lim == spec_lim(self.size as nat),
                self.mod_mask == new_lim - 1,
                keys_unique(self.buckets()),
                placed(self.buckets(), self.mod_mask),
                keys_unique(seqs_of(vec@)),
                disjoint_keys(self.buckets(), seqs_of(vec@)),
                split_pairs(orig, self.buckets(), seqs_of(vec@)),
                total(self.buckets()) + total(seqs_of(vec@)) == total(orig),
                vec@.len() == orig.len(),
                i <= vec@.len(),
                forall|t: int| 0 <= t < i ==> (#[trigger] vec@[t])@.len() == 0,
                forall|t: int| i <= t < vec@.len() ==> (#[trigger] vec@[t])@ == orig[t],
                slot == slot_fn::<K>(self.mod_mask),
                self.buckets() == grouped(entries(orig.take(i as int)), new_lim as nat, slot),
            decreases vec@.len() - i,
        {
            // Take the bucket out and reverse it, so that popping hands out its pairs in
            // order and each new bucket keeps the order of the old one.
            let ghost b0 = seqs_of(vec@);
            let mut taken: Vec<(K, V)> = Vec::new();
            std::mem::swap(&mut taken, &mut vec[i]);
            let mut bucket = reversed(taken);
            proof {
                assert(seqs_of(vec@).update(i as int, bucket@) =~= b0.update(
                    i as int,
                    b0[i as int].reverse(),
                ));
                lemma_reverse_bucket(b0, i as int);
                assert(orig[i as int].skip(0) =~= orig[i as int]);
                assert(orig[i as int].take(0) =~= Seq::<(K, V)>::empty());
                assert(entries(orig.take(i as int)) + orig[i as int].take(0) =~= entries(orig.take(i as int)));
            }
            while bucket.len() > 0
                invariant
                    self.size == old(self).size + 1,
                    self.size < usize::BITS,
                    self.count == old(self).count,
                    self.load_factor == old(self).load_factor,
                    self.cache@.len() == new_lim,
                    new_lim == spec_lim(self.size as nat),
                    self.mod_mask == new_lim - 1,
                    keys_unique(self.buckets()),
                    placed(self.buckets(), self.mod_mask),
                    keys_unique(seqs_of(vec@).update(i as int, bucket@)),
                    disjoint_keys(self.buckets(), seqs_of(vec@).update(i as int, bucket@)),
                    split_pairs(orig, self.buckets(), seqs_of(vec@).update(i as int, bucket@)),
                    total(self.buckets()) + total(seqs_of(vec@).update(i as int, bucket@))
                        == total(orig),
                    vec@.len() == orig.len(),
                    i < vec@.len(),
                    vec@[i as int]@.len() == 0,
                    forall|t: int| 0 <= t < i ==> (#[trigger] vec@[t])@.len() == 0,
                    forall|t: int| i < t < vec@.len() ==> (#[trigger] vec@[t])@ == orig[t],
                    slot == slot_fn::<K>(self.mod_mask),
                    bucket@.len() <= orig[i as int].len(),
                    bucket@ == orig[i as int].skip(orig[i as int].len() - bucket@.len()).reverse(),
                    self.buckets() == grouped(
                        entries(orig.take(i as int)) + orig[i as int].take(
                            orig[i as int].len() - bucket@.len(),
                        ),
                        new_lim as nat,
                        slot,
                    ),
                decreases bucket@.len(),
            {
                let ghost a = self.buckets();
                let ghost b = seqs_of(vec@).update(i as int, bucket@);
                let ghost c = orig[i as int].len() - bucket@.len();
                let ghost pre = entries(orig.take(i as int)) + orig[i as int].take(c);
                let kv = bucket.pop().unwrap();
                let ix = kv.0.into_int().calc_index(self.mod_mask, K::PRIME);
                proof {
                    lemma_move_last(orig, a, b, i as int, ix as int, self.mod_mask);
                    assert(kv == orig[i as int][c]);
                    assert(bucket@ =~= orig[i as int].skip(c + 1).reverse());
                    assert(pre.push(kv) =~= entries(orig.take(i as int)) + orig[i as int].take(c + 1));
                    assert(slot(kv.0) == ix);
                    lemma_grouped_push(pre, kv, new_lim as nat, slot);
                }
                self.cache[ix].push(kv);
                proof {
                    assert(self.buckets() =~= a.update(ix as int, a[ix as int].push(kv)));
                    assert(seqs_of(vec@).update(i as int, bucket@) =~= b.update(
                        i as int,
                        b[i as int].drop_last(),
                    ));
                }
            }
            proof {
                assert(bucket@ =~= vec@[i as int]@);
                assert(seqs_of(vec@).update(i as int, bucket@) =~= seqs_of(vec@));
                assert(orig[i as int].take(orig[i as int].len() as int) =~= orig[i as int]);
                assert(orig.take(i + 1).drop_last() =~= orig.take(i as int));
                assert(entries(orig.take(i + 1)) == entries(orig.take(i as int)) + orig[i as int]);
            }
            i = i + 1;
        }
        proof {
            let rest = seqs_of(vec@);
            lemma_map_of_no_pairs(rest);
            assert forall|k: K, v: V| !has_pair(rest, k, v) by {}
            lemma_same_pairs(orig, self.buckets());
            assert(orig.take(orig.len() as int) =~= orig);
        }
    }

    /// `count` pairs fit the load factor in the table of exponent `size`.
    proof fn lemma_load_monotone(count: nat, lf: nat, s1: nat, s2: nat)
        requires
            s1 <= s2,
            load_ok(count, pow2(s1), lf),
        ensures
            load_ok(count, pow2(s2), lf),
    {
        lemma_pow2_pos(s1);
        lemma_pow2_pos(s2);
        if s1 < s2 {
            lemma_pow2_strictly_increases(s1, s2);
        }
        vstd::arithmetic::div_mod::lemma_div_is_ordered_by_denominator(
            (count * 1000) as int,
            pow2(s1) as int,
            pow2(s2) as int,
        );
    }

    /// Grows the table until the pairs fit the load factor.
    fn ensure_load_rate(&mut self)
        requires
            old(self).wf(),
            load_fits(old(self).count as nat, old(self).load_factor as nat),
        ensures
            final(self).wf(),
            final(self)@ == old(self)@,
            final(self).count == old(self).count,
            final(self).load_factor == old(self).load_factor,
            grown_exp(
                old(self).size as nat,
                final(self).size as nat,
                old(self).count as nat,
                old(self).load_factor as nat,
            ),
            final(self).size == old(self).size ==> *final(self) == *old(self),
            final(self).size != old(self).size ==> final(self).buckets() == rehashed(
                old(self).buckets(),
                final(self).spec_capacity(),
                slot_fn(final(self).mod_mask),
            ),
    {
        proof {
            lemma_pow2_pos(self.size as nat);
        }
        // Handle empty cache to prevent division by zero.
        if self.cache.is_empty() {
            assert(usize::BITS == 32 || usize::BITS == 64);
            self.increase_cache();
        }
        let ghost start = max_nat(old(self).size as nat, 1);
        while (self.count * 1000) / self.cache.len() > self.load_factor
            invariant
                self.wf(),
                self@ == old(self)@,
                self.count == old(self).count,
                self.load_factor == old(self).load_factor,
                load_fits(self.count as nat, self.load_factor as nat),
                start == max_nat(old(self).size as nat, 1),
                self.size >= start,
                self.size == old(self).size ==> *self == *old(self),
                self.size != old(self).size ==> self.buckets() == rehashed(
                    old(self).buckets(),
                    self.spec_capacity(),
                    slot_fn(self.mod_mask),
                ),
                forall|t: nat|
                    start <= t < self.size ==> !load_ok(
                        self.count as nat,
                        #[trigger] pow2(t),
                        self.load_factor as nat,
                    ),
            decreases usize::BITS - self.size,
        {
            proof {
                if self.size + 1 >= usize::BITS {
                    Self::lemma_load_monotone(
                        self.count as nat,
                        self.load_factor as nat,
                        (usize::BITS - 1) as nat,
                        self.size as nat,
                    );
                }
            }
            let ghost prev = *self;
            self.increase_cache();
            proof {
                if prev.size != old(self).size {
                    prev.lemma_wf();
                    lemma_pow2_pos(prev.size as nat);
                    lemma_slot_submask::<K>(prev.mod_mask, self.mod_mask);
                    lemma_rehashed_twice(
                        old(self).buckets(),
                        prev.spec_capacity(),
                        slot_fn(prev.mod_mask),
                        self.spec_capacity(),
                        slot_fn(self.mod_mask),
                        |j: int| ((j as usize) & prev.mod_mask) as int,
                    );
                }
            }
        }
    }

    /// Sets the load factor of the [`IntMap`], given per thousand, and grows the table until
    /// the pairs fit it.
    ///
    /// A load factor below 1000 will reduce hash collisions but use more space; one above
    /// 1000 will tolerate hash collisions and use less space.
    pub fn set_load_factor_per_mille(&mut self, load_factor: usize)
        requires
            old(self).wf(),
            load_fits(old(self)@.len(), load_factor as nat),
        ensures
            final(self).wf(),
            final(self)@ == old(self)@,
            final(self).spec_load_factor() == load_factor,
            grown_exp(old(self).size_exp(), final(self).size_exp(), old(self)@.len(), load_factor as nat),
            final(self).buckets() == grown_buckets(*old(self), *final(self)),
    {
        proof {
            self.lemma_wf();
        }
        self.load_factor = load_factor;
        self.ensure_load_rate();
    }

    /// Returns the current load factor, per thousand.
    pub fn load_factor_per_mille(&self) -> (r: usize)
        ensures
            r == self.spec_load_factor(),
    {
        self.load_factor
    }

    /// Grows the table until the pairs fit the load factor, and tells whether it grew.
    pub(crate) fn increase_cache_if_needed(&mut self) -> (r: bool)
        requires
            old(self).wf(),
            load_fits(old(self)@.len(), old(self).spec_load_factor()),
        ensures
            final(self).wf(),
            final(self)@ == old(self)@,
            final(self).spec_load_factor() == old(self).spec_load_factor(),
            grown_exp(
                old(self).size_exp(),
                final(self).size_exp(),
                old(self)@.len(),
                old(self).spec_load_factor(),
            ),
            r == (final(self).spec_capacity() != old(self).spec_capacity()),
            final(self).size_exp() == old(self).size_exp() ==> *final(self) == *old(self),
            final(self).buckets() == grown_buckets(*old(self), *final(self)),
    {
        proof {
            self.lemma_wf();
        }
        let initial_cache_len = self.cache.len();
        self.ensure_load_rate();
        initial_cache_len != self.cache.len()
    }

    /// Ensures that the [`IntMap`] has space for at least `additional` more elements.
    ///
    /// The table is doubled (starting from two slots) until it has at least as many slots as
    /// it will hold pairs.
    pub fn reserve(&mut self, additional: usize)
        requires
            old(self).wf(),
            old(self)@.len() + additional <= pow2((usize::BITS - 1) as nat),
        ensures
            final(self).wf(),
            final(self)@ == old(self)@,
            final(self).spec_load_factor() == old(self).spec_load_factor(),
            reserved_exp(
                old(self).size_exp(),
                final(self).size_exp(),
                old(self)@.len() + additional as nat,
            ),
            final(self).buckets() == grown_buckets(*old(self), *final(self)),
    {
        proof {
            self.lemma_wf();
            vstd::bits::lemma_usize_pow2_no_overflow((usize::BITS - 1) as nat);
        }
        let capacity = self.count + additional;
        while self.lim() < capacity
            invariant
                self.wf(),
                self@ == old(self)@,
                self.count == old(self).count,
                self.load_factor == old(self).load_factor,
                capacity <= pow2((usize::BITS - 1) as nat),
                self.size >= old(self).size,
                forall|t: nat|
                    old(self).size <= t < self.size ==> #[trigger] spec_lim(t) < capacity,
                self.size == old(self).size ==> *self == *old(self),
                self.size != old(self).size ==> self.buckets() == rehashed(
                    old(self).buckets(),
                    self.spec_capacity(),
                    slot_fn(self.mod_mask),
                ),
            decreases usize::BITS - self.size,
        {
            proof {
                if self.size + 1 >= usize::BITS {
                    lemma_pow2_pos(self.size as nat);
                    if self.size > usize::BITS - 1 {
                        lemma_pow2_strictly_increases((usize::BITS - 1) as nat, self.size as nat);
                    }
                }
            }
            let ghost prev = *self;
            self.increase_cache();
            proof {
                if prev.size != old(self).size {
                    prev.lemma_wf();
                    lemma_pow2_pos(prev.size as nat);
                    lemma_slot_submask::<K>(prev.mod_mask, self.mod_mask);
                    lemma_rehashed_twice(
                        old(self).buckets(),
                        prev.spec_capacity(),
                        slot_fn(prev.mod_mask),
                        self.spec_capacity(),
                        slot_fn(self.mod_mask),
                        |j: int| ((j as usize) & prev.mod_mask) as int,
                    );
                }
            }
        }
    }

    /// Creates a new [`IntMap`] with at least the given capacity.
    ///
    /// If the capacity is 0, the [`IntMap`] will not allocate. Otherwise the capacity is
    /// rounded to the next power of two and space for elements is allocated accordingly.
    pub fn with_capacity(capacity: usize) -> (r: Self)
        requires
            capacity <= pow2((usize::BITS - 1) as nat),
        ensures
            r.wf(),
            r@ == Map::<K, V>::empty(),
            r.spec_load_factor() == 909,
            reserved_exp(0, r.size_exp(), capacity as nat),
            r.buckets() == empty_buckets::<K, V>(r.spec_capacity()),
    {
        let mut map = Self::new();
        map.reserve(capacity);
        proof {
            map.lemma_wf();
            let bs = map.buckets();
            assert forall|j: int| 0 <= j < bs.len() implies #[trigger] bs[j] =~= Seq::<(K, V)>::empty() by {
                if bs[j].len() > 0 {
                    lemma_map_of_at(bs, j, 0);
                }
            }
            assert(bs =~= empty_buckets::<K, V>(map.spec_capacity()));
        }
        map
    }

    /// Inserts a key/value pair into the [`IntMap`].
    ///
    /// This function returns the previous value if any otherwise `None`.
    pub fn insert(&mut self, key: K, value: V) -> (r: Option<V>)
        requires
            old(self).wf(),
            load_fits(old(self)@.len(), old(self).spec_load_factor()),
        ensures
            final(self).wf(),
            final(self)@ == old(self)@.insert(key, value),
            r == old(self)@.get(key),
            final(self).spec_load_factor() == old(self).spec_load_factor(),
            grown_exp(
                old(self).size_exp(),
                final(self).size_exp(),
                old(self)@.len(),
                old(self).spec_load_factor(),
            ),
            final(self).buckets() == grown_buckets(*old(self), *final(self)).update(
                final(self).slots()(key),
                put_pair(grown_buckets(*old(self), *final(self))[final(self).slots()(key)], key, value),
            ),
    {
        proof {
            self.lemma_wf();
        }
        self.ensure_load_rate();
        let ix = self.index_of(key);
        let ghost bs = self.buckets();
        let old_value = match self.find_in_bucket(ix, key) {
            Some(pos) => {
                proof {
                    lemma_swap_remove(bs, ix as int, pos as int, self.mod_mask);
                    lemma_key_pos(bs, ix as int, pos as int);
                }
                let kv = self.cache[ix].swap_remove(pos);
                proof {
                    assert(self.buckets() =~= bs.update(
                        ix as int,
                        swap_removed(bs[ix as int], pos as int),
                    ));
                }
                Some(kv.1)
            },
            None => {
                proof {
                    lemma_no_key_pos(bs, ix as int, key);
                }
                // Only increase count if we actually add a new entry
                self.count = self.count + 1;
                None
            },
        };
        let ghost bs1 = self.buckets();
        proof {
            assert(!map_of(bs1).contains_key(key));
            lemma_push(bs1, ix as int, (key, value), self.mod_mask);
        }
        self.cache[ix].push((key, value));
        proof {
            assert(self.buckets() =~= bs1.update(ix as int, bs1[ix as int].push((key, value))));
            assert(self@ =~= old(self)@.insert(key, value));
        }
        old_value
    }

    /// Insert a key/value pair into the [`IntMap`] if the key is not yet inserted.
    ///
    /// This function returns true if key/value were inserted and false otherwise.
    pub fn insert_checked(&mut self, key: K, value: V) -> (r: bool)
        requires
            old(self).wf(),
            load_fits(old(self)@.len(), old(self).spec_load_factor()),
        ensures
            final(self).wf(),
            r == !old(self)@.contains_key(key),
            final(self)@ == (if r {
                old(self)@.insert(key, value)
            } else {
                old(self)@
            }),
            final(self).spec_load_factor() == old(self).spec_load_factor(),
            grown_exp(
                old(self).size_exp(),
                final(self).size_exp(),
                old(self)@.len(),
                old(self).spec_load_factor(),
            ),
            final(self).buckets() == (if r {
                grown_buckets(*old(self), *final(self)).update(
                    final(self).slots()(key),
                    grown_buckets(*old(self), *final(self))[final(self).slots()(key)].push(
                        (key, value),
                    ),
                )
            } else {
                grown_buckets(*old(self), *final(self))
            }),
    {
        proof {
            self.lemma_wf();
        }
        self.ensure_load_rate();
        let ix = self.index_of(key);
        if self.find_in_bucket(ix, key).is_some() {
            return false;
        }
        let ghost bs = self.buckets();
        proof {
            lemma_push(bs, ix as int, (key, value), self.mod_mask);
        }
        self.count = self.count + 1;
        self.cache[ix].push((key, value));
        proof {
            assert(self.buckets() =~= bs.update(ix as int, bs[ix as int].push((key, value))));
        }
        true
    }

    /// Removes the value for given key from the [`IntMap`] and returns it.
    pub fn remove(&mut self, key: K) -> (r: Option<V>)
        requires
            old(self).wf(),
        ensures
            final(self).wf(),
            final(self)@ == old(self)@.remove(key),
            r == old(self)@.get(key),
            final(self).spec_capacity() == old(self).spec_capacity(),
            final(self).size_exp() == old(self).size_exp(),
            final(self).spec_load_factor() == old(self).spec_load_factor(),
            final(self).buckets() == (if old(self).spec_capacity() == 0 {
                old(self).buckets()
            } else {
                old(self).buckets().update(
                    old(self).slots()(key),
                    take_pair(old(self).buckets()[old(self).slots()(key)], key),
                )
            }),
    {
        if self.is_empty() {
            proof {
                assert(old(self)@.remove(key) =~= old(self)@);
                if self.cache@.len() > 0 {
                    self.lemma_wf();
                    vstd::arithmetic::power2::lemma_pow2_pos(self.size as nat);
                    key.int_of().lemma_calc_index_bounded(self.mod_mask, K::PRIME);
                    let ix = self.slots()(key);
                    lemma_no_key_pos(self.buckets(), ix, key);
                    assert(self.buckets().update(ix, self.buckets()[ix]) =~= self.buckets());
                }
            }
            return None;
        }
        proof {
            self.lemma_wf();
            if self.cache@.len() == 0 {
                assert(total(self.buckets()) == 0);
            }
        }
        let ix = self.index_of(key);
        match self.find_in_bucket(ix, key) {
            Some(i) => {
                let ghost bs = self.buckets();
                proof {
                    lemma_swap_remove(bs, ix as int, i as int, self.mod_mask);
                    lemma_key_pos(bs, ix as int, i as int);
                }
                self.count = self.count - 1;
                let kv = self.cache[ix].swap_remove(i);
                proof {
                    assert(self.buckets() =~= bs.update(
                        ix as int,
                        swap_removed(bs[ix as int], i as int),
                    ));
                }
                Some(kv.1)
            },
            None => {
                proof {
                    assert(old(self)@.remove(key) =~= old(self)@);
                    lemma_no_key_pos(self.buckets(), ix as int, key);
                    assert(self.buckets().update(ix as int, self.buckets()[ix as int])
                        =~= self.buckets());
                }
                None
            },
        }
    }

    /// Removes all elements from the [`IntMap`].
    pub fn clear(&mut self)
        requires
            old(self).wf(),
        ensures
            final(self).wf(),
            final(self)@ == Map::<K, V>::empty(),
            final(self).spec_capacity() == old(self).spec_capacity(),
            final(self).size_exp() == old(self).size_exp(),
            final(self).spec_load_factor() == old(self).spec_load_factor(),
    {
        let mut i: usize = 0;
        while i < self.cache.len()
            invariant
                self.cache@.len() == old(self).cache@.len(),
                self.size == old(self).size,
                self.mod_mask == old(self).mod_mask,
                self.load_factor == old(self).load_factor,
                i <= self.cache@.len(),
                forall|t: int| 0 <= t < i ==> (#[trigger] self.cache@[t])@.len() == 0,
            decreases self.cache@.len() - i,
        {
            self.cache[i].clear();
            i = i + 1;
        }
        self.count = 0;
        proof {
            let bs = self.buckets();
            assert forall|t: int| 0 <= t < bs.len() implies #[trigger] bs[t].len() == 0 by {
                assert(bs[t] == self.cache@[t]@);
            }
            lemma_map_of_no_pairs(bs);
        }
    }

    /// Gets the mutable value for the given key from the [`IntMap`].
    ///
    /// Whatever is written through the returned reference becomes the key's value.
    pub fn get_mut(&mut self, key: K) -> (r: Option<&mut V>)
        requires
            old(self).wf(),
        ensures
            final(self).wf(),
            final(self).spec_capacity() == old(self).spec_capacity(),
            final(self).size_exp() == old(self).size_exp(),
            final(self).spec_load_factor() == old(self).spec_load_factor(),
            old(self)@.contains_key(key) ==> r.is_some() && *r.unwrap() == old(self)@[key]
                && final(self)@ == old(self)@.insert(key, *final(r.unwrap())),
            !old(self)@.contains_key(key) ==> r.is_none() && *final(self) == *old(self),
            old(self)@.contains_key(key) ==> final(self).buckets() == old(self).buckets().update(
                old(self).slots()(key),
                set_value(old(self).buckets()[old(self).slots()(key)], key, *final(r.unwrap())),
            ),
    {
        if self.is_empty() {
            return None;
        }
        proof {
            self.lemma_wf();
            if self.cache@.len() == 0 {
                assert(total(self.buckets()) == 0);
            }
        }
        let ix = self.index_of(key);
        match self.find_in_bucket(ix, key) {
            Some(j) => {
                let ghost bs = self.buckets();
                let v = value_mut_at(&mut self.cache, ix, j);
                proof {
                    lemma_set_value(bs, ix as int, j as int, *final(v), self.mod_mask);
                    lemma_key_pos(bs, ix as int, j as int);
                }
                Some(v)
            },
            None => None,
        }
    }

    /// Retains only the key/value pairs specified by the predicate.
    ///
    /// In other words, remove all elements such that `f(key, &value)` returns false.
    pub fn retain<F>(&mut self, mut f: F)
        where
            F: FnMut(K, &V) -> bool,
        requires
            old(self).wf(),
            forall|k: K| #[trigger] old(self)@.contains_key(k) ==> f.requires((k, &old(self)@[k])),
        ensures
            final(self).wf(),
            retained_by(old(self)@, final(self)@, f),
            final(self).spec_capacity() == old(self).spec_capacity(),
            final(self).size_exp() == old(self).size_exp(),
            final(self).spec_load_factor() == old(self).spec_load_factor(),
            forall|j: int|
                0 <= j < old(self).buckets().len() ==> #[trigger] final(self).buckets()[j]
                    == old(self).buckets()[j].filter(keeps(final(self)@)),
    {
        let ghost orig = self.buckets();
        let ghost om = self@;
        let ghost f0 = f;
        let mut removed: usize = 0;
        let mut i: usize = 0;
        while i < self.cache.len()
            invariant
                self.cache@.len() == old(self).cache@.len(),
                self.size == old(self).size,
                self.mod_mask == old(self).mod_mask,
                self.load_factor == old(self).load_factor,
                self.count == old(self).count,
                old(self).wf(),
                orig == old(self).buckets(),
                om == map_of(orig),
                forall|k: K| #[trigger] om.contains_key(k) ==> f.requires((k, &om[k])),
                f == f0,
                i <= self.cache@.len(),
                keys_unique(self.buckets()),
                placed(self.buckets(), self.mod_mask),
                removed + total(self.buckets()) == total(orig),
                forall|k: K| #[trigger] self@.contains_key(k) ==> om.contains_key(k) && self@[k] == om[k],
                forall|k: K|
                    #[trigger] om.contains_key(k) && bucket_index(k, self.mod_mask) >= i
                        ==> self@.contains_key(k),
                forall|k: K|
                    #[trigger] om.contains_key(k) && bucket_index(k, self.mod_mask) < i ==> (
                    self@.contains_key(k) ==> call_ensures(f, (k, &om[k]), true)) && (
                    !self@.contains_key(k) ==> call_ensures(f, (k, &om[k]), false)),
                orig.len() == self.buckets().len(),
                forall|t: int| 0 <= t < i ==> #[trigger] self.buckets()[t] == orig[t].filter(keeps(self@)),
                forall|t: int| i <= t < orig.len() ==> #[trigger] self.buckets()[t] == orig[t],
            decreases self.cache@.len() - i,
        {
            let ghost w0 = self.buckets();
            let ghost m0 = self@;
            assert(m0 == map_of(w0));
            let mut pending: Vec<(K, V)> = Vec::new();
            std::mem::swap(&mut pending, &mut self.cache[i]);
            proof {
                let w = self.buckets();
                assert(w =~= w0.update(i as int, Seq::empty()));
                assert(seq![pending@] =~= seq![w0[i as int]]);
                lemma_split_bucket(w0, i as int, self.mod_mask);
                assert(w =~= w0.update(i as int, Seq::empty()));
                assert forall|k: K| #[trigger] self@.contains_key(k) implies om.contains_key(k)
                    && self@[k] == om[k] by {
                    assert(has_key(w, k));
                    assert(has_key(w0, k));
                    assert(m0.contains_key(k));
                    assert(m0[k] == om[k]);
                    assert(map_of(w)[k] == map_of(w0)[k]);
                }
                assert forall|k: K| #[trigger] map_of(seq![pending@]).contains_key(k) implies om.contains_key(k)
                    && map_of(seq![pending@])[k] == om[k] && bucket_index(k, self.mod_mask) == i by {
                    assert(has_key(seq![w0[i as int]], k));
                    assert(has_key(w0, k));
                    assert(m0.contains_key(k));
                    assert(m0[k] == om[k]);
                }
                assert forall|k: K| #[trigger] m0.contains_key(k) != self@.contains_key(k) implies bucket_index(
                    k,
                    self.mod_mask,
                ) == i by {
                    if m0.contains_key(k) && !self@.contains_key(k) {
                        let (i2, j2) = choose|i2: int, j2: int| valid_pos(w0, i2, j2) && #[trigger] w0[i2][j2].0 == k;
                        if i2 != i {
                            assert(w[i2] == w0[i2]);
                            assert(valid_pos(w, i2, j2) && w[i2][j2].0 == k);
                        }
                        assert(bucket_index(w0[i2][j2].0, self.mod_mask) == i2);
                    } else {
                        let (i2, j2) = choose|i2: int, j2: int| valid_pos(w, i2, j2) && #[trigger] w[i2][j2].0 == k;
                        assert(w[i2] == w0[i2]);
                        assert(valid_pos(w0, i2, j2) && w0[i2][j2].0 == k);
                    }
                }
                assert forall|t: int| 0 <= t < i implies #[trigger] self.buckets()[t] == orig[t].filter(
                    keeps(self@),
                ) by {
                    assert(self.buckets()[t] == w0[t]);
                    lemma_keeps_other_bucket(orig, self.mod_mask, t, m0, self@);
                }
                assert(w0[i as int] == orig[i as int]);
                assert(orig[i as int].take(0) =~= Seq::<(K, V)>::empty());
                lemma_filter_none(orig[i as int].take(0), keeps(self@));
                assert(self.buckets()[i as int] =~= orig[i as int].take(0).filter(keeps(self@)));
            }
            // Reverse the bucket, so that popping hands out its pairs in order and the kept
            // pairs stay in order.
            let ghost p0 = seq![pending@];
            let mut pending = reversed(pending);
            proof {
                let p1 = seq![pending@];
                assert(p1 =~= p0.update(0, p0[0].reverse()));
                lemma_reverse_bucket(p0, 0);
                lemma_same_pairs(p1, p0);
                let w = self.buckets();
                assert forall|k: K| #![trigger has_key(w, k)] #![trigger has_key(p1, k)]
                    !(has_key(w, k) && has_key(p1, k)) by {
                    assert(has_key(p1, k) == has_key(p0, k));
                }
                assert(orig[i as int].skip(0) =~= orig[i as int]);
            }
            while pending.len() > 0
                invariant
                    self.cache@.len() == old(self).cache@.len(),
                    self.size == old(self).size,
                    self.mod_mask == old(self).mod_mask,
                    self.load_factor == old(self).load_factor,
                    self.count == old(self).count,
                    old(self).wf(),
                    orig == old(self).buckets(),
                    om == map_of(orig),
                    forall|k: K| #[trigger] om.contains_key(k) ==> f.requires((k, &om[k])),
                    f == f0,
                    i < self.cache@.len(),
                    keys_unique(self.buckets()),
                    placed(self.buckets(), self.mod_mask),
                    keys_unique(seq![pending@]),
                    disjoint_keys(self.buckets(), seq![pending@]),
                    removed + total(self.buckets()) + pending@.len() == total(orig),
                    forall|k: K| #[trigger] self@.contains_key(k) ==> om.contains_key(k) && self@[k] == om[k],
                    forall|k: K|
                        #[trigger] map_of(seq![pending@]).contains_key(k) ==> om.contains_key(k)
                            && map_of(seq![pending@])[k] == om[k] && bucket_index(k, self.mod_mask)
                            == i,
                    forall|k: K|
                        #[trigger] om.contains_key(k) && bucket_index(k, self.mod_mask) > i
                            ==> self@.contains_key(k),
                    forall|k: K|
                        #[trigger] om.contains_key(k) && bucket_index(k, self.mod_mask) == i
                            && !map_of(seq![pending@]).contains_key(k) ==> (self@.contains_key(k)
                            ==> call_ensures(f, (k, &om[k]), true)) && (!self@.contains_key(k)
                            ==> call_ensures(f, (k, &om[k]), false)),
                    forall|k: K|
                        #[trigger] om.contains_key(k) && bucket_index(k, self.mod_mask) == i
                            ==> self@.contains_key(k) || map_of(seq![pending@]).contains_key(k)
                            || call_ensures(f, (k, &om[k]), false),
                    forall|k: K|
                        #[trigger] om.contains_key(k) && bucket_index(k, self.mod_mask) < i ==> (
                        self@.contains_key(k) ==> call_ensures(f, (k, &om[k]), true)) && (
                        !self@.contains_key(k) ==> call_ensures(f, (k, &om[k]), false)),
                    orig.len() == self.buckets().len(),
                    forall|t: int| 0 <= t < i ==> #[trigger] self.buckets()[t] == orig[t].filter(keeps(self@)),
                    forall|t: int| i < t < orig.len() ==> #[trigger] self.buckets()[t] == orig[t],
                    pending@.len() <= orig[i as int].len(),
                    pending@ == orig[i as int].skip(orig[i as int].len() - pending@.len()).reverse(),
                    self.buckets()[i as int] == orig[i as int].take(
                        orig[i as int].len() - pending@.len(),
                    ).filter(keeps(self@)),
                decreases pending@.len(),
            {
                let ghost w = self.buckets();
                let ghost m = self@;
                assert(m == map_of(w));
                let ghost p = seq![pending@];
                let ghost last = pending@.len() - 1;
                let ghost c = orig[i as int].len() - pending@.len();
                proof {
                    assert(swap_removed(p[0], last) =~= p[0].drop_last());
                    lemma_swap_remove(p, 0, last, self.mod_mask);
                    lemma_map_of_at(p, 0, last);
                }
                let (k, v) = pending.pop().unwrap();
                proof {
                    assert(seq![pending@] =~= p.update(0, swap_removed(p[0], last)));
                    assert(has_key(p, k));
                    assert(!has_key(w, k));
                    assert(map_of(p).contains_key(k) && map_of(p)[k] == v);
                    assert(om.contains_key(k) && om[k] == v);
                    assert((k, v) == orig[i as int][c]);
                    assert(pending@ =~= orig[i as int].skip(c + 1).reverse());
                }
                let keep = f(k, &v);
                if keep {
                    proof {
                        lemma_push(w, i as int, (k, v), self.mod_mask);
                    }
                    self.cache[i].push((k, v));
                    proof {
                        assert(self.buckets() =~= w.update(i as int, w[i as int].push((k, v))));
                    }
                } else {
                    removed = removed + 1;
                }
                proof {
                    let w2 = self.buckets();
                    let p2 = seq![pending@];
                    assert(map_of(p)[k] == om[k]);
                    if keep {
                        assert(map_of(w2) == map_of(w).insert(k, v));
                    } else {
                        assert(w2 == w);
                    }
                    assert forall|k2: K| #![trigger has_key(w2, k2)] #![trigger has_key(p2, k2)]
                        !(has_key(w2, k2) && has_key(p2, k2)) by {
                        assert(map_of(w2).contains_key(k2) == has_key(w2, k2));
                        assert(map_of(p2).contains_key(k2) == has_key(p2, k2));
                        assert(map_of(w).contains_key(k2) == has_key(w, k2));
                        assert(map_of(p).contains_key(k2) == has_key(p, k2));
                    }
                    assert forall|k2: K| #[trigger] map_of(w2).contains_key(k2) implies om.contains_key(k2)
                        && map_of(w2)[k2] == om[k2] by {
                        if k2 != k || !keep {
                            assert(m.contains_key(k2));
                            assert(m[k2] == om[k2]);
                        }
                    }
                    // Only the key `k`, of bucket `i`, may have joined the map.
                    assert forall|k2: K| #[trigger] m.contains_key(k2) != self@.contains_key(k2) implies bucket_index(
                        k2,
                        self.mod_mask,
                    ) == i by {
                        assert(k2 == k);
                    }
                    assert forall|t: int| 0 <= t < i implies #[trigger] self.buckets()[t] == orig[t].filter(
                        keeps(self@),
                    ) by {
                        assert(self.buckets()[t] == w[t]);
                        lemma_keeps_other_bucket(orig, self.mod_mask, t, m, self@);
                    }
                    let pre = orig[i as int].take(c);
                    assert(orig[i as int].take(c + 1) =~= pre.push((k, v)));
                    lemma_filter_push(pre, (k, v), keeps(self@));
                    assert forall|q: int| 0 <= q < pre.len() implies keeps(m)(#[trigger] pre[q]) == keeps(
                        self@,
                    )(pre[q]) by {
                        assert(pre[q] == orig[i as int][q]);
                        assert(valid_pos(orig, i as int, q) && valid_pos(orig, i as int, c));
                        assert(orig[i as int][q].0 != orig[i as int][c].0);
                    }
                    lemma_filter_congruent(pre, keeps(m), keeps(self@));
                    if keep {
                        assert(self@.contains_key(k));
                        assert(self.buckets()[i as int] == w[i as int].push((k, v)));
                    } else {
                        assert(!self@.contains_key(k));
                    }
                    assert(self.buckets()[i as int] == orig[i as int].take(c + 1).filter(keeps(self@)));
                }
            }
            proof {
                assert(orig[i as int].take(orig[i as int].len() as int) =~= orig[i as int]);
            }
            i = i + 1;
        }
        proof {
            let fm = self@;
            assert forall|k: K| #[trigger] om.contains_key(k) implies bucket_index(k, self.mod_mask)
                < self.cache@.len() by {
                assert(has_key(orig, k));
                let (i2, j2) = choose|i2: int, j2: int| valid_pos(orig, i2, j2) && #[trigger] orig[i2][j2].0 == k;
                assert(bucket_index(orig[i2][j2].0, self.mod_mask) == i2);
            }
            assert forall|k: K| #[trigger] fm.contains_key(k) implies om.contains_key(k) && fm[k]
                == om[k] && call_ensures(f, (k, &om[k]), true) by {
                assert(om.contains_key(k));
                assert(bucket_index(k, self.mod_mask) < self.cache@.len());
            }
            assert forall|k: K| #[trigger] om.contains_key(k) && !fm.contains_key(k) implies call_ensures(
                f,
                (k, &om[k]),
                false,
            ) by {
                assert(bucket_index(k, self.mod_mask) < self.cache@.len());
            }
        }
        self.count = self.count - removed;
    }

    /// Returns an iterator over all key/value pairs.
    pub fn iter(&self) -> (r: Iter<'_, K, V>)
        requires
            self.wf(),
        ensures
            r.wf(),
            r.index() == 0,
            enumerates(r.seq(), self@),
            r.seq() == self.pairs(),
    {
        proof {
            lemma_entries_enumerate(self.buckets());
        }
        Iter::new(&self.cache)
    }

    /// Returns an iterator over all keys.
    pub fn keys(&self) -> (r: Keys<'_, K, V>)
        requires
            self.wf(),
        ensures
            r.wf(),
            r.index() == 0,
            enumerates(r.seq(), self@),
            r.seq() == self.pairs(),
    {
        Keys::new(self.iter())
    }

    /// Returns an iterator over all values.
    pub fn values(&self) -> (r: Values<'_, K, V>)
        requires
            self.wf(),
        ensures
            r.wf(),
            r.index() == 0,
            enumerates(r.seq(), self@),
            r.seq() == self.pairs(),
    {
        Values::new(self.iter())
    }

    /// Returns an iterator over all key/value pairs with mutable value.
    pub fn iter_mut(&mut self) -> (r: IterMut<'_, K, V>)
        requires
            old(self).wf(),
        ensures
            r.wf(),
            r.index() == 0,
            enumerates(r.seq(), old(self)@),
            r.seq() == old(self).pairs(),
            *r.map_ref() == *old(self),
            *final(r.map_ref()) == *final(self),
    {
        proof {
            lemma_entries_enumerate(self.buckets());
        }
        IterMut::new(self)
    }

    /// Returns an iterator over all mutable values.
    pub fn values_mut(&mut self) -> (r: ValuesMut<'_, K, V>)
        requires
            old(self).wf(),
        ensures
            r.wf(),
            r.index() == 0,
            enumerates(r.seq(), old(self)@),
            r.seq() == old(self).pairs(),
            *r.map_ref() == *old(self),
            *final(r.map_ref()) == *final(self),
    {
        ValuesMut::new(self.iter_mut())
    }

    /// Returns an iterator that takes the key/value pairs out of the [`IntMap`].
    pub fn into_iter(self) -> (r: IntoIter<K, V>)
        requires
            self.wf(),
        ensures
            enumerates(r.remaining(), self@),
            r.remaining() == self.pairs(),
    {
        proof {
            lemma_entries_enumerate(self.buckets());
        }
        IntoIter::new(self.cache)
    }

    /// Returns an iterator over all key/value pairs that removes the pairs from the
    /// [`IntMap`].
    ///
    /// The map is empty as soon as the iterator exists; pairs the iterator has not handed out
    /// when it is dropped are dropped with it.
    pub fn drain(&mut self) -> (r: Drain<'_, K, V>)
        requires
            old(self).wf(),
        ensures
            enumerates(r.remaining(), old(self)@),
            r.remaining() == old(self).pairs(),
            r.map_ref().wf(),
            r.map_ref()@ == Map::<K, V>::empty(),
            r.map_ref().spec_capacity() == old(self).spec_capacity(),
            r.map_ref().size_exp() == old(self).size_exp(),
            r.map_ref().spec_load_factor() == old(self).spec_load_factor(),
            *final(r.map_ref()) == *final(self),
    {
        proof {
            lemma_entries_enumerate(self.buckets());
        }
        let n = self.cache.len();
        let mut empty: Vec<Vec<(K, V)>> = Vec::new();
        let mut i: usize = 0;
        while i < n
            invariant
                i <= n,
                empty@.len() == i,
                forall|t: int| 0 <= t < i ==> (#[trigger] empty@[t])@.len() == 0,
            decreases n - i,
        {
            empty.push(Vec::new());
            i = i + 1;
        }
        std::mem::swap(&mut self.cache, &mut empty);
        self.count = 0;
        proof {
            let bs = self.buckets();
            assert forall|t: int| 0 <= t < bs.len() implies #[trigger] bs[t].len() == 0 by {
                assert(bs[t] == self.cache@[t]@);
            }
            lemma_map_of_no_pairs(bs);
        }
        let inner = IntoIter::new(empty);
        Drain::new(self, inner)
    }

    /// Returns the number of filled slots.
    pub fn load(&self) -> (r: u64)
        requires
            self.wf(),
        ensures
            r == filled(self.buckets()),
    {
        let mut n: usize = 0;
        let mut i: usize = 0;
        while i < self.cache.len()
            invariant
                i <= self.cache@.len(),
                n == filled(self.buckets().take(i as int)),
                n <= i,
            decreases self.cache@.len() - i,
        {
            proof {
                assert(self.buckets().take(i + 1).drop_last() =~= self.buckets().take(i as int));
            }
            if !self.cache[i].is_empty() {
                n = n + 1;
            }
            i = i + 1;
        }
        proof {
            assert(self.buckets().take(i as int) =~= self.buckets());
        }
        n as u64
    }

    /// Checks whether the actual count of key/value pairs matches [`IntMap::len`].
    ///
    /// Only for testing.
    pub fn assert_count(&self) -> (r: bool)
        requires
            self.wf(),
        ensures
            r == (self@.len() == total(self.buckets())),
            r,
    {
        proof {
            self.lemma_wf();
        }
        let mut n: usize = 0;
        let mut i: usize = 0;
        while i < self.cache.len()
            invariant
                self.wf(),
                i <= self.cache@.len(),
                n == total(self.buckets().take(i as int)),
            decreases self.cache@.len() - i,
        {
            proof {
                lemma_total_take(self.buckets(), i as int);
                lemma_total_take_mono(self.buckets(), i + 1, self.buckets().len() as int);
                lemma_total_take(self.buckets(), self.buckets().len() as int);
            }
            n = n + self.cache[i].len();
            i = i + 1;
        }
        proof {
            lemma_total_take(self.buckets(), self.buckets().len() as int);
        }
        self.count == n
    }

    /// Returns a new [`IntMap`] that contains only the collisions of the current [`IntMap`]:
    /// for each bucket length above one, how many buckets have that length.
    ///
    /// Only for testing.
    pub fn collisions(&self) -> (r: IntMap<u64, u64>)
        requires
            self.wf(),
        ensures
            r.wf(),
            r@ == collision_map(self.buckets()),
            r.spec_load_factor() == 909,
            r@.len() == 0 ==> r.size_exp() == 0,
            r@.len() > 0 ==> grown_exp(0, r.size_exp(), (r@.len() - 1) as nat, 909),
    {
        let ghost bs = self.buckets();
        let mut map: IntMap<u64, u64> = IntMap::new();
        let ghost mut ks: Seq<u64> = Seq::empty();
        proof {
            assert(bs.take(0) =~= Seq::<Seq<(K, V)>>::empty());
            assert(map@ =~= collision_map(bs.take(0)));
            assert(ks.to_set() =~= map@.dom());
            lemma_total_take(bs, bs.len() as int);
        }
        let mut i: usize = 0;
        while i < self.cache.len()
            invariant
                self.wf(),
                bs == self.buckets(),
                i <= bs.len(),
                map.wf(),
                map.spec_load_factor() == 909,
                map@ == collision_map(bs.take(i as int)),
                ks.no_duplicates(),
                ks.to_set() == map@.dom(),
                forall|t: int| 0 <= t < ks.len() ==> #[trigger] ks[t] >= 2,
                seq_sum(ks) <= total(bs.take(i as int)),
                total(bs.take(bs.len() as int)) == total(bs),
                total(bs) == self.count,
                map@.len() == ks.len(),
                map@.len() == 0 ==> map.size_exp() == 0,
                map@.len() > 0 ==> grown_exp(0, map.size_exp(), (map@.len() - 1) as nat, 909),
            decreases bs.len() - i,
        {
            let ghost prev = map@;
            proof {
                lemma_total_take(bs, i as int);
                lemma_total_take_mono(bs, i + 1, bs.len() as int);
                assert forall|l: nat| #[trigger] len_count(bs.take(i + 1), l) == len_count(bs.take(i as int), l)
                    + if bs[i as int].len() == l { 1nat } else { 0nat } by {
                    lemma_len_count_take(bs, i as int, l);
                }
            }
            let s = self.cache[i].len();
            let key = s as u64;
            if key > 1 {
                if !map.contains_key(key) {
                    proof {
                        map.lemma_wf();
                        ks.unique_seq_to_set();
                        lemma_distinct_lengths_fit(ks);
                        vstd::bits::lemma_usize_pow2_no_overflow((usize::BITS - 1) as nat);
                        let big = pow2((usize::BITS - 1) as nat);
                        assert(big * 2 > usize::MAX) by {
                            lemma_pow2_unfold(usize::BITS as nat);
                            assert(usize::BITS == 32 || usize::BITS == 64);
                            vstd::arithmetic::power2::lemma2_to64();
                        }
                        let d = map@.len();
                        assert((d * 1000) / big <= 1) by (nonlinear_arith)
                            requires
                                d * 1000 < big * 2,
                                big > 0,
                        ;
                    }
                    let ghost before = map;
                    map.insert(key, 1);
                    proof {
                        before.lemma_wf();
                        map.lemma_wf();
                        assert(map@.len() == before@.len() + 1);
                        if before@.len() > 0 {
                            lemma_grown_exp_trans(
                                0,
                                before.size_exp(),
                                map.size_exp(),
                                (before@.len() - 1) as nat,
                                before@.len(),
                                909,
                            );
                        }
                        assert(ks.push(key).drop_last() =~= ks);
                        ks.lemma_push_to_set_commute(key);
                        ks = ks.push(key);
                        ks.unique_seq_to_set();
                    }
                } else {
                    proof {
                        lemma_len_count_bounded(bs.take(i as int), key as nat);
                    }
                    let counter = map.get_mut(key).unwrap();
                    *counter = *counter + 1;
                }
            }
            proof {
                assert(map@ =~= collision_map(bs.take(i + 1)));
            }
            i = i + 1;
        }
        proof {
            assert(bs.take(bs.len() as int) =~= bs);
        }
        map
    }

    /// Inserts every pair of `items`, in order, as [`IntMap::insert`] does.
    pub fn extend(&mut self, items: Vec<(K, V)>)
        requires
            old(self).wf(),
            load_fits(insert_all(old(self)@, items@).len(), old(self).spec_load_factor()),
        ensures
            final(self).wf(),
            final(self)@ == insert_all(old(self)@, items@),
            final(self).spec_load_factor() == old(self).spec_load_factor(),
            extended_exp(
                old(self).size_exp(),
                final(self).size_exp(),
                old(self)@,
                items@,
                old(self).spec_load_factor(),
            ),
            (final(self).buckets(), final(self).size_exp()) == layout_after_extend(
                old(self).buckets(),
                old(self).size_exp(),
                old(self).spec_load_factor(),
                items@,
            ),
    {
        let ghost all = items@;
        let ghost lf = self.spec_load_factor();
        proof {
            self.lemma_wf();
            assert(all.take(0) =~= Seq::<(K, V)>::empty());
        }
        let mut rest = reversed(items);
        while rest.len() > 0
            invariant
                self.wf(),
                old(self).wf(),
                self.spec_load_factor() == lf,
                lf == old(self).spec_load_factor(),
                old(self)@.dom().finite(),
                rest@.len() <= all.len(),
                self@ == insert_all(old(self)@, all.take(all.len() - rest@.len())),
                rest@ == all.skip(all.len() - rest@.len()).reverse(),
                load_fits(insert_all(old(self)@, all).len(), lf),
                extended_exp(
                    old(self).size_exp(),
                    self.size_exp(),
                    old(self)@,
                    all.take(all.len() - rest@.len()),
                    lf,
                ),
                (self.buckets(), self.size_exp()) == layout_after_extend(
                    old(self).buckets(),
                    old(self).size_exp(),
                    lf,
                    all.take(all.len() - rest@.len()),
                ),
            decreases rest@.len(),
        {
            let ghost done = all.len() - rest@.len();
            let ghost s_prev = self.size_exp();
            let ghost before = *self;
            let kv = rest.pop().unwrap();
            proof {
                assert(kv == all[done]);
                assert(all.take(done + 1).drop_last() =~= all.take(done));
                assert(rest@ =~= all.skip(done + 1).reverse());
                self.lemma_wf();
                lemma_insert_all_prefix(old(self)@, all, done);
                lemma_load_fits_mono(self@.len(), insert_all(old(self)@, all).len(), lf);
            }
            self.insert(kv.0, kv.1);
            proof {
                Self::lemma_insert_layout(before, *self, kv.0, kv.1);
                assert(all.take(done + 1).last() == kv);
                if done > 0 {
                    let before = all.take(done);
                    assert(before.drop_last() =~= all.take(done - 1));
                    assert(all.take(done).take(done - 1) =~= all.take(done - 1));
                    lemma_insert_all_prefix(old(self)@, all.take(done), done - 1);
                    lemma_grown_exp_trans(
                        old(self).size_exp(),
                        s_prev,
                        self.size_exp(),
                        insert_all(old(self)@, all.take(done - 1)).len(),
                        insert_all(old(self)@, all.take(done)).len(),
                        lf,
                    );
                }
            }
        }
        proof {
            assert(all.take(all.len() as int) =~= all);
        }
    }

    /// Makes a map of `items`, inserted in order as [`IntMap::insert`] does, with room for
    /// all of them reserved first.
    pub fn from_iter(items: Vec<(K, V)>) -> (r: Self)
        requires
            items@.len() <= pow2((usize::BITS - 1) as nat),
            load_fits(insert_all(Map::<K, V>::empty(), items@).len(), 909),
        ensures
            r.wf(),
            r@ == insert_all(Map::<K, V>::empty(), items@),
            r.spec_load_factor() == 909,
            exists|s: nat|
                reserved_exp(0, s, items@.len()) && #[trigger] extended_exp(
                    s,
                    r.size_exp(),
                    Map::<K, V>::empty(),
                    items@,
                    909,
                ),
            exists|s: nat|
                #[trigger] reserved_exp(0, s, items@.len()) && (r.buckets(), r.size_exp())
                    == layout_after_extend(
                    empty_buckets::<K, V>(spec_lim(s)),
                    s,
                    909,
                    items@,
                ),
    {
        let mut map = IntMap::with_capacity(items.len());
        let ghost s = map.size_exp();
        map.extend(items);
        map
    }

    /// Gets the [`Entry`] that corresponds to the given key.
    pub fn entry(&mut self, key: K) -> (r: Entry<'_, K, V>)
        requires
            old(self).wf(),
        ensures
            r.wf(),
            r.key() == key,
            *r.map_ref() == *old(self),
            *final(r.map_ref()) == *final(self),
            (r is Occupied) == old(self)@.contains_key(key),
    {
        Entry::new(key, self)
    }

    /// Returns true if the key is present in the [`IntMap`].
    pub fn contains_key(&self, key: K) -> (r: bool)
        requires
            self.wf(),
        ensures
            r == self@.contains_key(key),
    {
        self.get(key).is_some()
    }
}

} // verus!
