use vstd::prelude::*;

use crate::buckets::{
    bucket_index, holds_key, key_pos, lemma_key_pos, set_value, take_pair, valid_pos, lemma_map_of_at, lemma_push, lemma_set_value, lemma_swap_remove, map_of,
    swap_removed,
};
use crate::int_key::IntKey;
use crate::prim_int::SealedInt;
use crate::{grown_buckets, grown_exp, load_fits, IntMap};

verus! {

/// A view into a single entry in a [`IntMap`], which may either be vacant or occupied.
///
/// The entry can be constructed by calling [`IntMap::entry`] with a key. It allows inspection
/// and in-place manipulation of its value without repeated lookups.
///
/// Verified callers end it with `release` (or a consuming method) to learn what the map
/// holds afterwards.
pub enum Entry<'a, K: IntKey, V: 'a> {
    /// The entry is occupied.
    Occupied(OccupiedEntry<'a, K, V>),
    /// The entry is vacant.
    Vacant(VacantEntry<'a, K, V>),
}

/// A view into an occupied entry in a [`IntMap`]. It is part of the [`Entry`] enum.
///
/// Verified callers end it with `release` (or a consuming method) to learn what the map
/// holds afterwards.
pub struct OccupiedEntry<'a, K: IntKey, V: 'a> {
    // Index into the bucket, guaranteed to be valid
    vals_ix: usize,
    // The bucket that holds the pair
    cache_ix: usize,
    // The map that holds the pair
    map: &'a mut IntMap<K, V>,
}

/// A view into a vacant entry in a [`IntMap`]. It is part of the [`Entry`] enum.
///
/// Verified callers end it with `release` (or a consuming method) to learn what the map
/// holds afterwards.
pub struct VacantEntry<'a, K: IntKey, V: 'a> {
    key: K,
    cache_ix: usize,
    int_map: &'a mut IntMap<K, V>,
}

impl<'a, K: IntKey, V> Entry<'a, K, V> {
    /// The map that the entry borrows.
    pub open spec fn map_ref(&self) -> &'a mut IntMap<K, V> {
        match self {
            Entry::Occupied(e) => e.map_ref(),
            Entry::Vacant(e) => e.map_ref(),
        }
    }

    /// The key of the entry.
    pub open spec fn key(&self) -> K {
        match self {
            Entry::Occupied(e) => e.key(),
            Entry::Vacant(e) => e.key(),
        }
    }

    /// The entry is consistent with the map it borrows.
    pub open spec fn wf(&self) -> bool {
        match self {
            Entry::Occupied(e) => e.wf(),
            Entry::Vacant(e) => e.wf(),
        }
    }

    /// Finding room for the key, if it is missing, keeps the table's slots countable.
    pub open spec fn can_insert(&self) -> bool {
        self is Vacant ==> load_fits(self.map_ref()@.len(), self.map_ref().spec_load_factor())
    }

    /// Looks `key` up in `int_map` and returns the entry for it.
    pub(crate) fn new(key: K, int_map: &'a mut IntMap<K, V>) -> (r: Self)
        requires
            old(int_map).wf(),
        ensures
            r.wf(),
            r.key() == key,
            *r.map_ref() == *old(int_map),
            *final(r.map_ref()) == *final(int_map),
            (r is Occupied) == old(int_map)@.contains_key(key),
            r matches Entry::Occupied(e) ==> e.bucket() == old(int_map).slots()(key) && e.position()
                == key_pos(old(int_map).buckets()[e.bucket()], key),
            r matches Entry::Vacant(e) ==> e.bucket() == (if old(int_map).spec_capacity() > 0 {
                old(int_map).slots()(key)
            } else {
                0
            }),
    {
        let (cache_ix, vals_ix) = Self::indices(key, int_map);
        proof {
            if let Some(j) = vals_ix {
                int_map.lemma_wf();
                lemma_key_pos(int_map.buckets(), cache_ix as int, j as int);
            }
        }
        match vals_ix {
            Some(vals_ix) => Entry::Occupied(OccupiedEntry { vals_ix, cache_ix, map: int_map }),
            None => Entry::Vacant(VacantEntry { key, cache_ix, int_map }),
        }
    }

    /// Ends the entry's borrow of the map, leaving the map as the entry sees it.
    ///
    /// An entry that is dropped instead also hands the map back, but verified callers learn
    /// what the map then holds only through this method or a consuming one (`or_insert`,
    /// `into_mut`, `remove`, `insert`).
    pub fn release(self)
        requires
            self.wf(),
        ensures
            self.map_ref().wf(),
            *final(self.map_ref()) == *self.map_ref(),
    {
        match self {
            Entry::Occupied(e) => e.release(),
            Entry::Vacant(e) => e.release(),
        }
    }

    /// The bucket of `key` and its position there, if it is in the map.
    fn indices(key: K, int_map: &IntMap<K, V>) -> (r: (usize, Option<usize>))
        requires
            int_map.wf(),
        ensures
            int_map.spec_capacity() > 0 ==> r.0 == bucket_index(key, int_map.mod_mask)
                && r.0 == key.int_of().spec_calc_index(
                (int_map.spec_capacity() - 1) as usize,
                K::PRIME,
            ),
            match r.1 {
                Some(j) => r.0 < int_map.buckets().len() && j < int_map.buckets()[r.0 as int].len()
                    && int_map.buckets()[r.0 as int][j as int].0 == key,
                None => !int_map@.contains_key(key),
            },
            r.1.is_some() == int_map@.contains_key(key),
            int_map.spec_capacity() == 0 ==> r.0 == 0,
    {
        if int_map.cache.is_empty() {
            // Returning 0 is okay because we'll increase the cache and recalculate the index if
            // the user calls `insert`.
            proof {
                int_map.lemma_wf();
                assert(int_map@.dom() =~= Set::<K>::empty());
            }
            return (0, None);
        }
        let cache_ix = int_map.index_of(key);
        let vals_ix = int_map.find_in_bucket(cache_ix, key);
        proof {
            int_map.lemma_wf();
            if let Some(j) = vals_ix {
                lemma_map_of_at(int_map.buckets(), cache_ix as int, j as int);
            }
        }
        (cache_ix, vals_ix)
    }

    /// Ensures a value is in the entry by inserting the provided value if empty, and returns
    /// a mutable reference to the value in the entry.
    pub fn or_insert(self, default: V) -> (r: &'a mut V)
        requires
            self.wf(),
            self.can_insert(),
        ensures
            *r == (if self is Occupied {
                self.map_ref()@[self.key()]
            } else {
                default
            }),
            final(self.map_ref()).wf(),
            final(self.map_ref())@ == self.map_ref()@.insert(self.key(), *final(r)),
            final(self.map_ref()).spec_load_factor() == self.map_ref().spec_load_factor(),
            self is Occupied ==> final(self.map_ref()).size_exp() == self.map_ref().size_exp()
                && final(self.map_ref()).spec_capacity() == self.map_ref().spec_capacity(),
            self is Vacant ==> grown_exp(
                self.map_ref().size_exp(),
                final(self.map_ref()).size_exp(),
                self.map_ref()@.len(),
                self.map_ref().spec_load_factor(),
            ),
            self is Occupied ==> final(self.map_ref()).buckets() == self.map_ref().buckets().update(
                self.map_ref().slots()(self.key()),
                set_value(
                    self.map_ref().buckets()[self.map_ref().slots()(self.key())],
                    self.key(),
                    *final(r),
                ),
            ),
            self is Vacant ==> final(self.map_ref()).buckets() == grown_buckets(
                *self.map_ref(),
                *final(self.map_ref()),
            ).update(
                final(self.map_ref()).slots()(self.key()),
                grown_buckets(*self.map_ref(), *final(self.map_ref()))[final(self.map_ref()).slots()(
                    self.key(),
                )].push((self.key(), *final(r))),
            ),
    {
        match self {
            Entry::Occupied(entry) => entry.into_mut(),
            Entry::Vacant(entry) => entry.insert(default),
        }
    }

    /// Ensures a value is in the entry by inserting the result of the provided function if
    /// empty, and returns a mutable reference to the value in the entry.
    pub fn or_insert_with<F>(self, default: F) -> (r: &'a mut V)
        where
            F: FnOnce() -> V,
        requires
            self.wf(),
            self.can_insert(),
            self is Vacant ==> default.requires(()),
        ensures
            self is Occupied ==> *r == self.map_ref()@[self.key()],
            self is Vacant ==> default.ensures((), *r),
            final(self.map_ref()).wf(),
            final(self.map_ref())@ == self.map_ref()@.insert(self.key(), *final(r)),
            final(self.map_ref()).spec_load_factor() == self.map_ref().spec_load_factor(),
            self is Occupied ==> final(self.map_ref()).size_exp() == self.map_ref().size_exp()
                && final(self.map_ref()).spec_capacity() == self.map_ref().spec_capacity(),
            self is Vacant ==> grown_exp(
                self.map_ref().size_exp(),
                final(self.map_ref()).size_exp(),
                self.map_ref()@.len(),
                self.map_ref().spec_load_factor(),
            ),
            self is Occupied ==> final(self.map_ref()).buckets() == self.map_ref().buckets().update(
                self.map_ref().slots()(self.key()),
                set_value(
                    self.map_ref().buckets()[self.map_ref().slots()(self.key())],
                    self.key(),
                    *final(r),
                ),
            ),
            self is Vacant ==> final(self.map_ref()).buckets() == grown_buckets(
                *self.map_ref(),
                *final(self.map_ref()),
            ).update(
                final(self.map_ref()).slots()(self.key()),
                grown_buckets(*self.map_ref(), *final(self.map_ref()))[final(self.map_ref()).slots()(
                    self.key(),
                )].push((self.key(), *final(r))),
            ),
    {
        match self {
            Entry::Occupied(entry) => entry.into_mut(),
            Entry::Vacant(entry) => entry.insert(default()),
        }
    }

    /// Ensures a value is in the entry by inserting, if empty, the result of the provided
    /// function.
    pub fn or_insert_with_key<F>(self, default: F) -> (r: &'a mut V)
        where
            F: FnOnce(K) -> V,
        requires
            self.wf(),
            self.can_insert(),
            self is Vacant ==> default.requires((self.key(),)),
        ensures
            self is Occupied ==> *r == self.map_ref()@[self.key()],
            self is Vacant ==> default.ensures((self.key(),), *r),
            final(self.map_ref()).wf(),
            final(self.map_ref())@ == self.map_ref()@.insert(self.key(), *final(r)),
            final(self.map_ref()).spec_load_factor() == self.map_ref().spec_load_factor(),
            self is Occupied ==> final(self.map_ref()).size_exp() == self.map_ref().size_exp()
                && final(self.map_ref()).spec_capacity() == self.map_ref().spec_capacity(),
            self is Vacant ==> grown_exp(
                self.map_ref().size_exp(),
                final(self.map_ref()).size_exp(),
                self.map_ref()@.len(),
                self.map_ref().spec_load_factor(),
            ),
            self is Occupied ==> final(self.map_ref()).buckets() == self.map_ref().buckets().update(
                self.map_ref().slots()(self.key()),
                set_value(
                    self.map_ref().buckets()[self.map_ref().slots()(self.key())],
                    self.key(),
                    *final(r),
                ),
            ),
            self is Vacant ==> final(self.map_ref()).buckets() == grown_buckets(
                *self.map_ref(),
                *final(self.map_ref()),
            ).update(
                final(self.map_ref()).slots()(self.key()),
                grown_buckets(*self.map_ref(), *final(self.map_ref()))[final(self.map_ref()).slots()(
                    self.key(),
                )].push((self.key(), *final(r))),
            ),
    {
        match self {
            Entry::Occupied(entry) => entry.into_mut(),
            Entry::Vacant(entry) => {
                let d = default(entry.key);
                entry.insert(d)
            },
        }
    }
}

impl<'a, K: IntKey, V> Entry<'a, K, V> where V: Default {
    /// Ensures a value is in the entry by inserting the default value if empty,
    /// and returns a mutable reference to the value in the entry.
    pub fn or_default(self) -> (r: &'a mut V)
        requires
            self.wf(),
            self.can_insert(),
        ensures
            self is Occupied ==> *r == self.map_ref()@[self.key()],
            self is Vacant ==> call_ensures(V::default, (), *r),
            final(self.map_ref()).wf(),
            final(self.map_ref())@ == self.map_ref()@.insert(self.key(), *final(r)),
            final(self.map_ref()).spec_load_factor() == self.map_ref().spec_load_factor(),
            self is Occupied ==> final(self.map_ref()).size_exp() == self.map_ref().size_exp()
                && final(self.map_ref()).spec_capacity() == self.map_ref().spec_capacity(),
            self is Vacant ==> grown_exp(
                self.map_ref().size_exp(),
                final(self.map_ref()).size_exp(),
                self.map_ref()@.len(),
                self.map_ref().spec_load_factor(),
            ),
            self is Occupied ==> final(self.map_ref()).buckets() == self.map_ref().buckets().update(
                self.map_ref().slots()(self.key()),
                set_value(
                    self.map_ref().buckets()[self.map_ref().slots()(self.key())],
                    self.key(),
                    *final(r),
                ),
            ),
            self is Vacant ==> final(self.map_ref()).buckets() == grown_buckets(
                *self.map_ref(),
                *final(self.map_ref()),
            ).update(
                final(self.map_ref()).slots()(self.key()),
                grown_buckets(*self.map_ref(), *final(self.map_ref()))[final(self.map_ref()).slots()(
                    self.key(),
                )].push((self.key(), *final(r))),
            ),
    {
        match self {
            Entry::Occupied(entry) => entry.into_mut(),
            Entry::Vacant(entry) => entry.insert(V::default()),
        }
    }
}

/// The pair at `(ci, vi)` of a well-formed map sits in the bucket of its key, as the one pair
/// of that key there.
proof fn lemma_slot<K: IntKey, V>(m: IntMap<K, V>, ci: usize, vi: usize)
    requires
        m.wf(),
        ci < m.buckets().len(),
        vi < m.buckets()[ci as int].len(),
    ensures
        m.slots()(m.buckets()[ci as int][vi as int].0) == ci,
        holds_key(m.buckets()[ci as int], m.buckets()[ci as int][vi as int].0),
        key_pos(m.buckets()[ci as int], m.buckets()[ci as int][vi as int].0) == vi,
{
    let bs = m.buckets();
    m.lemma_wf();
    lemma_key_pos(bs, ci as int, vi as int);
    assert(valid_pos(bs, ci as int, vi as int));
    assert(bucket_index(bs[ci as int][vi as int].0, m.mod_mask) == ci);
}

impl<'a, K: IntKey, V> OccupiedEntry<'a, K, V> {
    /// The map that the entry borrows.
    pub closed spec fn map_ref(&self) -> &'a mut IntMap<K, V> {
        self.map
    }

    /// The key of the entry.
    pub closed spec fn key(&self) -> K {
        self.map.buckets()[self.cache_ix as int][self.vals_ix as int].0
    }

    /// The bucket that holds the entry's pair.
    pub closed spec fn bucket(&self) -> int {
        self.cache_ix as int
    }

    /// The position of the entry's pair within its bucket.
    pub closed spec fn position(&self) -> int {
        self.vals_ix as int
    }

    /// The entry points at a pair of a well-formed map.
    pub closed spec fn wf(&self) -> bool {
        &&& self.map.wf()
        &&& self.cache_ix < self.map.buckets().len()
        &&& self.vals_ix < self.map.buckets()[self.cache_ix as int].len()
    }

    /// The entry's key is in its map.
    pub proof fn lemma_key_in_map(&self)
        requires
            self.wf(),
        ensures
            self.map_ref()@.contains_key(self.key()),
    {
        lemma_map_of_at(self.map.buckets(), self.cache_ix as int, self.vals_ix as int);
    }

    /// Gets a reference to the value in the entry.
    pub fn get(&self) -> (r: &V)
        requires
            self.wf(),
        ensures
            self.map_ref()@.contains_key(self.key()),
            *r == self.map_ref()@[self.key()],
    {
        proof {
            lemma_map_of_at(self.map.buckets(), self.cache_ix as int, self.vals_ix as int);
        }
        &self.map.cache[self.cache_ix][self.vals_ix].1
    }

    /// Gets a mutable reference to the value in the entry.
    pub fn get_mut(&mut self) -> (r: &mut V)
        requires
            old(self).wf(),
        ensures
            *r == old(self).map_ref()@[old(self).key()],
            final(self).map_ref().wf(),
            final(self).wf(),
            final(self).key() == old(self).key(),
            *final(final(self).map_ref()) == *final(old(self).map_ref()),
            final(self).map_ref()@ == old(self).map_ref()@.insert(old(self).key(), *final(r)),
            final(self).map_ref().spec_capacity() == old(self).map_ref().spec_capacity(),
            final(self).map_ref().size_exp() == old(self).map_ref().size_exp(),
            final(self).map_ref().spec_load_factor() == old(self).map_ref().spec_load_factor(),
            final(self).map_ref().buckets() == old(self).map_ref().buckets().update(
                old(self).map_ref().slots()(old(self).key()),
                set_value(
                    old(self).map_ref().buckets()[old(self).map_ref().slots()(old(self).key())],
                    old(self).key(),
                    *final(r),
                ),
            ),
    {
        proof {
            lemma_map_of_at(self.map.buckets(), self.cache_ix as int, self.vals_ix as int);
            lemma_slot(*self.map, self.cache_ix, self.vals_ix);
        }
        let ghost bs = self.map.buckets();
        let ghost mask = self.map.mod_mask;
        let ci = self.cache_ix;
        let vi = self.vals_ix;
        let v = crate::value_mut_at(&mut self.map.cache, ci, vi);
        proof {
            lemma_set_value(bs, ci as int, vi as int, *final(v), mask);
        }
        v
    }

    /// Ends the entry's borrow of the map, leaving the map as the entry sees it.
    ///
    /// An entry that is dropped instead also hands the map back, but verified callers learn
    /// what the map then holds only through this method or a consuming one.
    pub fn release(self)
        requires
            self.wf(),
        ensures
            self.map_ref().wf(),
            *final(self.map_ref()) == *self.map_ref(),
    {
    }

    /// Converts the entry into a mutable reference to the value in the entry with a
    /// lifetime bound to the [`IntMap`] itself.
    pub fn into_mut(self) -> (r: &'a mut V)
        requires
            self.wf(),
        ensures
            *r == self.map_ref()@[self.key()],
            final(self.map_ref()).wf(),
            final(self.map_ref())@ == self.map_ref()@.insert(self.key(), *final(r)),
            final(self.map_ref()).spec_capacity() == self.map_ref().spec_capacity(),
            final(self.map_ref()).size_exp() == self.map_ref().size_exp(),
            final(self.map_ref()).spec_load_factor() == self.map_ref().spec_load_factor(),
            final(self.map_ref()).buckets() == self.map_ref().buckets().update(
                self.map_ref().slots()(self.key()),
                set_value(
                    self.map_ref().buckets()[self.map_ref().slots()(self.key())],
                    self.key(),
                    *final(r),
                ),
            ),
    {
        proof {
            lemma_map_of_at(self.map.buckets(), self.cache_ix as int, self.vals_ix as int);
            lemma_slot(*self.map, self.cache_ix, self.vals_ix);
        }
        let ghost bs = self.map.buckets();
        let v = crate::value_mut_at(&mut self.map.cache, self.cache_ix, self.vals_ix);
        proof {
            lemma_set_value(bs, self.cache_ix as int, self.vals_ix as int, *final(v), self.map.mod_mask);
        }
        v
    }

    /// Sets the value of the entry and returns the old value.
    pub fn insert(&mut self, value: V) -> (r: V)
        requires
            old(self).wf(),
        ensures
            r == old(self).map_ref()@[old(self).key()],
            final(self).wf(),
            final(self).key() == old(self).key(),
            *final(final(self).map_ref()) == *final(old(self).map_ref()),
            final(self).map_ref()@ == old(self).map_ref()@.insert(old(self).key(), value),
            final(self).map_ref().spec_capacity() == old(self).map_ref().spec_capacity(),
            final(self).map_ref().size_exp() == old(self).map_ref().size_exp(),
            final(self).map_ref().spec_load_factor() == old(self).map_ref().spec_load_factor(),
            final(self).map_ref().buckets() == old(self).map_ref().buckets().update(
                old(self).map_ref().slots()(old(self).key()),
                set_value(
                    old(self).map_ref().buckets()[old(self).map_ref().slots()(old(self).key())],
                    old(self).key(),
                    value,
                ),
            ),
    {
        let mut value = value;
        let slot = self.get_mut();
        std::mem::swap(slot, &mut value);
        value
    }

    /// Removes the value out of the entry and returns it.
    pub fn remove(self) -> (r: V)
        requires
            self.wf(),
        ensures
            r == self.map_ref()@[self.key()],
            final(self.map_ref()).wf(),
            final(self.map_ref())@ == self.map_ref()@.remove(self.key()),
            final(self.map_ref()).spec_capacity() == self.map_ref().spec_capacity(),
            final(self.map_ref()).size_exp() == self.map_ref().size_exp(),
            final(self.map_ref()).spec_load_factor() == self.map_ref().spec_load_factor(),
            final(self.map_ref()).buckets() == self.map_ref().buckets().update(
                self.map_ref().slots()(self.key()),
                take_pair(self.map_ref().buckets()[self.map_ref().slots()(self.key())], self.key()),
            ),
    {
        let ghost bs = self.map.buckets();
        proof {
            lemma_slot(*self.map, self.cache_ix, self.vals_ix);
            lemma_map_of_at(bs, self.cache_ix as int, self.vals_ix as int);
            lemma_swap_remove(bs, self.cache_ix as int, self.vals_ix as int, self.map.mod_mask);
            self.map.lemma_wf();
        }
        // Warning: We modify the cache here, so the index is now invalid
        self.map.count = self.map.count - 1;
        let kv = self.map.cache[self.cache_ix].swap_remove(self.vals_ix);
        proof {
            assert(self.map.buckets() =~= bs.update(
                self.cache_ix as int,
                swap_removed(bs[self.cache_ix as int], self.vals_ix as int),
            ));
        }
        kv.1
    }
}

impl<'a, K: IntKey, V: 'a> VacantEntry<'a, K, V> {
    /// The map that the entry borrows.
    pub closed spec fn map_ref(&self) -> &'a mut IntMap<K, V> {
        self.int_map
    }

    /// The key of the entry.
    pub closed spec fn key(&self) -> K {
        self.key
    }

    /// The bucket that the entry's key belongs to, while the map has slots (zero otherwise).
    pub closed spec fn bucket(&self) -> int {
        self.cache_ix as int
    }

    /// The entry's key is missing from a well-formed map, and the entry knows the key's bucket
    /// once the map has slots.
    pub closed spec fn wf(&self) -> bool {
        &&& self.int_map.wf()
        &&& !self.int_map@.contains_key(self.key)
        &&& self.int_map.spec_capacity() > 0 ==> self.cache_ix == bucket_index(
            self.key,
            self.int_map.mod_mask,
        )
    }

    /// Ends the entry's borrow of the map without inserting, leaving the map unchanged.
    ///
    /// An entry that is dropped instead also hands the map back, but verified callers learn
    /// what the map then holds only through this method or `insert`.
    pub fn release(self)
        requires
            self.wf(),
        ensures
            self.map_ref().wf(),
            *final(self.map_ref()) == *self.map_ref(),
    {
    }

    /// Inserts the entry's key with `value` and returns a mutable reference to the value.
    pub fn insert(self, value: V) -> (r: &'a mut V)
        requires
            self.wf(),
            load_fits(self.map_ref()@.len(), self.map_ref().spec_load_factor()),
        ensures
            *r == value,
            final(self.map_ref()).wf(),
            final(self.map_ref())@ == self.map_ref()@.insert(self.key(), *final(r)),
            final(self.map_ref()).spec_load_factor() == self.map_ref().spec_load_factor(),
            grown_exp(
                self.map_ref().size_exp(),
                final(self.map_ref()).size_exp(),
                self.map_ref()@.len(),
                self.map_ref().spec_load_factor(),
            ),
            final(self.map_ref()).buckets() == grown_buckets(
                *self.map_ref(),
                *final(self.map_ref()),
            ).update(
                final(self.map_ref()).slots()(self.key()),
                grown_buckets(*self.map_ref(), *final(self.map_ref()))[final(self.map_ref()).slots()(
                    self.key(),
                )].push((self.key(), *final(r))),
            ),
    {
        let key = self.key;
        let mut cache_ix = self.cache_ix;
        let int_map = self.int_map;
        proof {
            int_map.lemma_wf();
        }
        let ghost old_mask = int_map.mod_mask;
        let ghost old_cap = int_map.spec_capacity();
        if int_map.increase_cache_if_needed() {
            // Recompute cache_ix for the new size.
            let k = key.into_int();
            cache_ix = k.calc_index(int_map.mod_mask, K::PRIME);
        }
        proof {
            int_map.lemma_wf();
            vstd::arithmetic::power2::lemma_pow2_pos(int_map.size_exp());
            if old_cap == int_map.spec_capacity() {
                assert(old_mask == int_map.mod_mask);
            }
            key.int_of().lemma_calc_index_bounded(int_map.mod_mask, K::PRIME);
        }
        let ghost bs = int_map.buckets();
        proof {
            lemma_push(bs, cache_ix as int, (key, value), int_map.mod_mask);
        }
        int_map.count = int_map.count + 1;
        int_map.cache[cache_ix].push((key, value));
        let n = int_map.cache[cache_ix].len() - 1;
        proof {
            assert(int_map.buckets() =~= bs.update(cache_ix as int, bs[cache_ix as int].push((key, value))));
        }
        let ghost bs2 = int_map.buckets();
        let ghost mask = int_map.mod_mask;
        let v = crate::value_mut_at(&mut int_map.cache, cache_ix, n);
        proof {
            lemma_set_value(bs2, cache_ix as int, n as int, *final(v), mask);
            assert(bs2[cache_ix as int] == bs[cache_ix as int].push((key, value)));
            assert(n == bs[cache_ix as int].len());
            assert(bs2[cache_ix as int].update(n as int, (key, *final(v))) =~= bs[cache_ix as int].push(
                (key, *final(v)),
            ));
            assert(bs2.update(cache_ix as int, bs2[cache_ix as int].update(n as int, (key, *final(v))))
                =~= bs.update(cache_ix as int, bs[cache_ix as int].push((key, *final(v)))));
        }
        v
    }
}

} // verus!
