use vstd::prelude::*;

use crate::buckets::{
    entries, enumerates, flat_index, lemma_entries_at, lemma_entries_drop, lemma_entries_len,
    lemma_entries_update, lemma_set_value, lemma_total_take, seqs_of, valid_pos, rev_all, lemma_entries_rev_all,
};
use crate::int_key::IntKey;
use crate::IntMap;

verus! {

/// An iterator over the entries of a [`IntMap`].
///
/// This struct is created by [`IntMap::iter`].
pub struct Iter<'a, K: IntKey, V> {
    cache: &'a Vec<Vec<(K, V)>>,
    bucket: usize,
    pos: usize,
}

impl<'a, K: IntKey, V> Iter<'a, K, V> {
    /// All the pairs that the iterator walks over, in order.
    pub closed spec fn seq(&self) -> Seq<(K, V)> {
        entries(seqs_of(self.cache@))
    }

    /// How many pairs have been returned.
    pub closed spec fn index(&self) -> int {
        flat_index(seqs_of(self.cache@), self.bucket as int, self.pos as int)
    }

    /// The iterator's position is within the table.
    pub closed spec fn wf(&self) -> bool {
        &&& self.bucket <= self.cache@.len()
        &&& self.bucket < self.cache@.len() ==> self.pos <= self.cache@[self.bucket as int]@.len()
        &&& self.bucket == self.cache@.len() ==> self.pos == 0
    }

    pub(crate) fn new(vec: &'a Vec<Vec<(K, V)>>) -> (r: Self)
        ensures
            r.wf(),
            r.seq() == entries(seqs_of(vec@)),
            r.index() == 0,
    {
        let r = Iter { cache: vec, bucket: 0, pos: 0 };
        proof {
            assert(seqs_of(vec@).take(0) =~= Seq::empty());
        }
        r
    }

    /// Returns the next key/value pair, or `None` when all pairs have been returned.
    pub fn next(&mut self) -> (r: Option<(K, &'a V)>)
        requires
            old(self).wf(),
        ensures
            final(self).wf(),
            final(self).seq() == old(self).seq(),
            final(self).index() <= final(self).seq().len(),
            old(self).index() < old(self).seq().len() ==> r == Some(
                (old(self).seq()[old(self).index()].0, &old(self).seq()[old(self).index()].1),
            ) && final(self).index() == old(self).index() + 1,
            old(self).index() >= old(self).seq().len() ==> r is None && final(self).index()
                == old(self).index(),
    {
        let cache: &'a Vec<Vec<(K, V)>> = self.cache;
        let ghost bs = seqs_of(cache@);
        proof {
            lemma_entries_len(bs);
            lemma_total_take(bs, bs.len() as int);
            if self.bucket < bs.len() {
                lemma_total_take(bs, self.bucket as int);
                crate::buckets::lemma_total_take_mono(bs, self.bucket as int + 1, bs.len() as int);
            }
        }
        loop
            invariant
                self.wf(),
                self.cache == cache,
                old(self).cache == cache,
                bs == seqs_of(cache@),
                entries(bs).len() == crate::buckets::total(bs),
                self.index() == old(self).index(),
                old(self).index() <= entries(bs).len(),
                crate::buckets::total(bs.take(bs.len() as int)) == crate::buckets::total(bs),
            decreases cache@.len() - self.bucket, cache@.len() + 1 - self.pos,
        {
            if self.bucket >= cache.len() {
                return None;
            }
            let vals: &'a Vec<(K, V)> = &cache[self.bucket];
            if self.pos < vals.len() {
                let kv: &'a (K, V) = &vals[self.pos];
                proof {
                    assert(valid_pos(bs, self.bucket as int, self.pos as int));
                    lemma_entries_at(bs, self.bucket as int, self.pos as int);
                    lemma_total_take(bs, self.bucket as int);
                    crate::buckets::lemma_total_take_mono(bs, self.bucket as int + 1, bs.len() as int);
                }
                self.pos = self.pos + 1;
                return Some((kv.0, &kv.1));
            }
            proof {
                lemma_total_take(bs, self.bucket as int);
            }
            self.bucket = self.bucket + 1;
            self.pos = 0;
        }
    }
}

/// An iterator over the keys of a [`IntMap`].
///
/// This struct is created by [`IntMap::keys`].
pub struct Keys<'a, K: IntKey, V> {
    pub(crate) inner: Iter<'a, K, V>,
}

impl<'a, K: IntKey, V> Keys<'a, K, V> {
    /// The bounds on the number of items left that this iterator reports: a lower bound of
    /// zero and no upper bound.
    pub fn size_hint(&self) -> (r: (usize, Option<usize>))
        ensures
            r == (0usize, None::<usize>),
    {
        (0, None)
    }

    pub(crate) fn new(inner: Iter<'a, K, V>) -> (r: Self)
        ensures
            r.wf() == inner.wf(),
            r.seq() == inner.seq(),
            r.index() == inner.index(),
    {
        Keys { inner }
    }

    /// All the pairs whose keys the iterator walks over, in order.
    pub closed spec fn seq(&self) -> Seq<(K, V)> {
        self.inner.seq()
    }

    /// How many keys have been returned.
    pub closed spec fn index(&self) -> int {
        self.inner.index()
    }

    /// The iterator's position is within the table.
    pub closed spec fn wf(&self) -> bool {
        self.inner.wf()
    }

    /// Returns the next key, or `None` when all keys have been returned.
    pub fn next(&mut self) -> (r: Option<K>)
        requires
            old(self).wf(),
        ensures
            final(self).wf(),
            final(self).seq() == old(self).seq(),
            final(self).index() <= final(self).seq().len(),
            old(self).index() < old(self).seq().len() ==> r == Some(
                old(self).seq()[old(self).index()].0,
            ) && final(self).index() == old(self).index() + 1,
            old(self).index() >= old(self).seq().len() ==> r is None && final(self).index()
                == old(self).index(),
    {
        match self.inner.next() {
            Some(kv) => Some(kv.0),
            None => None,
        }
    }
}

/// An iterator over the values of a [`IntMap`].
///
/// This struct is created by [`IntMap::values`].
pub struct Values<'a, K: IntKey, V> {
    pub(crate) inner: Iter<'a, K, V>,
}

impl<'a, K: IntKey, V> Values<'a, K, V> {
    /// The bounds on the number of items left that this iterator reports: a lower bound of
    /// zero and no upper bound.
    pub fn size_hint(&self) -> (r: (usize, Option<usize>))
        ensures
            r == (0usize, None::<usize>),
    {
        (0, None)
    }

    pub(crate) fn new(inner: Iter<'a, K, V>) -> (r: Self)
        ensures
            r.wf() == inner.wf(),
            r.seq() == inner.seq(),
            r.index() == inner.index(),
    {
        Values { inner }
    }

    /// All the pairs whose values the iterator walks over, in order.
    pub closed spec fn seq(&self) -> Seq<(K, V)> {
        self.inner.seq()
    }

    /// How many values have been returned.
    pub closed spec fn index(&self) -> int {
        self.inner.index()
    }

    /// The iterator's position is within the table.
    pub closed spec fn wf(&self) -> bool {
        self.inner.wf()
    }

    /// Returns the next value, or `None` when all values have been returned.
    pub fn next(&mut self) -> (r: Option<&'a V>)
        requires
            old(self).wf(),
        ensures
            final(self).wf(),
            final(self).seq() == old(self).seq(),
            final(self).index() <= final(self).seq().len(),
            old(self).index() < old(self).seq().len() ==> r == Some(
                &old(self).seq()[old(self).index()].1,
            ) && final(self).index() == old(self).index() + 1,
            old(self).index() >= old(self).seq().len() ==> r is None && final(self).index()
                == old(self).index(),
    {
        match self.inner.next() {
            Some(kv) => Some(kv.1),
            None => None,
        }
    }
}

/// A mutable iterator over the entries of a [`IntMap`].
///
/// This struct is created by [`IntMap::iter_mut`]. What is written through a returned value
/// reference becomes that key's value in the map.
///
/// Verified callers end it with `release` to learn what the map
/// holds afterwards.
pub struct IterMut<'a, K: IntKey, V> {
    map: &'a mut IntMap<K, V>,
    bucket: usize,
    pos: usize,
}

impl<'a, K: IntKey, V> IterMut<'a, K, V> {
    /// The map that the iterator borrows.
    pub closed spec fn map_ref(&self) -> &'a mut IntMap<K, V> {
        self.map
    }

    /// All the pairs that the iterator walks over, in order, with the values as they are now.
    pub closed spec fn seq(&self) -> Seq<(K, V)> {
        entries(self.map.buckets())
    }

    /// How many pairs have been returned.
    pub closed spec fn index(&self) -> int {
        flat_index(self.map.buckets(), self.bucket as int, self.pos as int)
    }

    /// The iterator's position is within the table of a well-formed map.
    pub closed spec fn wf(&self) -> bool {
        let bs = self.map.buckets();
        &&& self.map.wf()
        &&& self.bucket <= bs.len()
        &&& self.bucket < bs.len() ==> self.pos <= bs[self.bucket as int].len()
        &&& self.bucket == bs.len() ==> self.pos == 0
    }

    pub(crate) fn new(map: &'a mut IntMap<K, V>) -> (r: Self)
        requires
            old(map).wf(),
        ensures
            r.wf(),
            r.seq() == entries(old(map).buckets()),
            r.index() == 0,
            *r.map_ref() == *old(map),
            *final(r.map_ref()) == *final(map),
    {
        proof {
            assert(map.buckets().take(0) =~= Seq::empty());
        }
        IterMut { map, bucket: 0, pos: 0 }
    }

    /// Ends the iterator's borrow of the map, leaving the map as the iterator sees it, with
    /// every value written through the references it handed out.
    ///
    /// An iterator that is dropped instead also hands the map back, but verified callers
    /// learn what the map then holds only through this method.
    pub fn release(self)
        requires
            self.wf(),
        ensures
            self.map_ref().wf(),
            *final(self.map_ref()) == *self.map_ref(),
    {
    }

    /// Returns the next key with a mutable reference to its value, or `None` when all pairs
    /// have been returned.
    pub fn next(&mut self) -> (r: Option<(K, &mut V)>)
        requires
            old(self).wf(),
        ensures
            final(self).wf(),
            *final(final(self).map_ref()) == *final(old(self).map_ref()),
            final(self).map_ref().spec_capacity() == old(self).map_ref().spec_capacity(),
            final(self).map_ref().size_exp() == old(self).map_ref().size_exp(),
            final(self).map_ref().spec_load_factor() == old(self).map_ref().spec_load_factor(),
            final(self).index() <= final(self).seq().len(),
            enumerates(final(self).seq(), final(self).map_ref()@),
            final(self).seq().len() == old(self).seq().len(),
            forall|p: int|
                0 <= p < old(self).seq().len() ==> (#[trigger] final(self).seq()[p]).0 == old(
                    self,
                ).seq()[p].0,
            old(self).index() < old(self).seq().len() ==> {
                let i = old(self).index();
                let k = old(self).seq()[i].0;
                &&& r is Some
                &&& r.unwrap().0 == k
                &&& *r.unwrap().1 == old(self).seq()[i].1
                &&& final(self).seq() == old(self).seq().update(i, (k, *final(r.unwrap().1)))
                &&& final(self).map_ref()@ == old(self).map_ref()@.insert(k, *final(r.unwrap().1))
                &&& final(self).index() == i + 1
            },
            old(self).index() >= old(self).seq().len() ==> {
                &&& r is None
                &&& final(self).seq() == old(self).seq()
                &&& *final(self).map_ref() == *old(self).map_ref()
                &&& final(self).index() == old(self).index()
            },
    {
        let ghost bs = self.map.buckets();
        proof {
            lemma_entries_len(bs);
            lemma_total_take(bs, bs.len() as int);
            if self.bucket < bs.len() {
                lemma_total_take(bs, self.bucket as int);
                crate::buckets::lemma_total_take_mono(bs, self.bucket as int + 1, bs.len() as int);
            }
        }
        loop
            invariant
                self.wf(),
                self.map == old(self).map,
                bs == self.map.buckets(),
                entries(bs).len() == crate::buckets::total(bs),
                self.index() == old(self).index(),
                old(self).index() <= entries(bs).len(),
                crate::buckets::total(bs.take(bs.len() as int)) == crate::buckets::total(bs),
            decreases bs.len() - self.bucket, bs.len() + 1 - self.pos,
        {
            if self.bucket >= self.map.cache.len() {
                proof {
                    self.map.lemma_wf();
                }
                return None;
            }
            if self.pos < self.map.cache[self.bucket].len() {
                let b = self.bucket;
                let p = self.pos;
                proof {
                    assert(valid_pos(bs, b as int, p as int));
                    lemma_entries_at(bs, b as int, p as int);
                    lemma_total_take(bs, b as int);
                    crate::buckets::lemma_total_take_mono(bs, b as int + 1, bs.len() as int);
                    self.map.lemma_wf();
                }
                self.pos = p + 1;
                let k = self.map.cache[b][p].0;
                let ghost mask = self.map.mod_mask;
                let v = crate::value_mut_at(&mut self.map.cache, b, p);
                proof {
                    lemma_set_value(bs, b as int, p as int, *final(v), mask);
                    lemma_entries_update(bs, b as int, p as int, (k, *final(v)));
                    crate::buckets::lemma_entries_enumerate(
                        bs.update(b as int, bs[b as int].update(p as int, (k, *final(v)))),
                    );
                }
                return Some((k, v));
            }
            proof {
                lemma_total_take(bs, self.bucket as int);
            }
            self.bucket = self.bucket + 1;
            self.pos = 0;
        }
    }
}

/// A mutable iterator over the values of a [`IntMap`].
///
/// This struct is created by [`IntMap::values_mut`].
///
/// Verified callers end it with `release` to learn what the map
/// holds afterwards.
pub struct ValuesMut<'a, K: IntKey, V> {
    pub(crate) inner: IterMut<'a, K, V>,
}

impl<'a, K: IntKey, V> ValuesMut<'a, K, V> {
    /// The bounds on the number of items left that this iterator reports: a lower bound of
    /// zero and no upper bound.
    pub fn size_hint(&self) -> (r: (usize, Option<usize>))
        ensures
            r == (0usize, None::<usize>),
    {
        (0, None)
    }

    /// The map that the iterator borrows.
    pub closed spec fn map_ref(&self) -> &'a mut IntMap<K, V> {
        self.inner.map_ref()
    }

    /// All the pairs whose values the iterator walks over, in order.
    pub closed spec fn seq(&self) -> Seq<(K, V)> {
        self.inner.seq()
    }

    /// How many values have been returned.
    pub closed spec fn index(&self) -> int {
        self.inner.index()
    }

    /// The iterator's position is within the table of a well-formed map.
    pub closed spec fn wf(&self) -> bool {
        self.inner.wf()
    }

    pub(crate) fn new(inner: IterMut<'a, K, V>) -> (r: Self)
        ensures
            r.wf() == inner.wf(),
            r.seq() == inner.seq(),
            r.index() == inner.index(),
            r.map_ref() == inner.map_ref(),
    {
        ValuesMut { inner }
    }

    /// Ends the iterator's borrow of the map, leaving the map as the iterator sees it, with
    /// every value written through the references it handed out.
    ///
    /// An iterator that is dropped instead also hands the map back, but verified callers
    /// learn what the map then holds only through this method.
    pub fn release(self)
        requires
            self.wf(),
        ensures
            self.map_ref().wf(),
            *final(self.map_ref()) == *self.map_ref(),
    {
        self.inner.release()
    }

    /// Returns a mutable reference to the next value, or `None` when all values have been
    /// returned.
    pub fn next(&mut self) -> (r: Option<&mut V>)
        requires
            old(self).wf(),
        ensures
            final(self).wf(),
            *final(final(self).map_ref()) == *final(old(self).map_ref()),
            final(self).map_ref().spec_capacity() == old(self).map_ref().spec_capacity(),
            final(self).map_ref().size_exp() == old(self).map_ref().size_exp(),
            final(self).map_ref().spec_load_factor() == old(self).map_ref().spec_load_factor(),
            final(self).index() <= final(self).seq().len(),
            enumerates(final(self).seq(), final(self).map_ref()@),
            final(self).seq().len() == old(self).seq().len(),
            forall|p: int|
                0 <= p < old(self).seq().len() ==> (#[trigger] final(self).seq()[p]).0 == old(
                    self,
                ).seq()[p].0,
            old(self).index() < old(self).seq().len() ==> {
                let i = old(self).index();
                let k = old(self).seq()[i].0;
                &&& r is Some
                &&& *r.unwrap() == old(self).seq()[i].1
                &&& final(self).seq() == old(self).seq().update(i, (k, *final(r.unwrap())))
                &&& final(self).map_ref()@ == old(self).map_ref()@.insert(k, *final(r.unwrap()))
                &&& final(self).index() == i + 1
            },
            old(self).index() >= old(self).seq().len() ==> {
                &&& r is None
                &&& final(self).seq() == old(self).seq()
                &&& *final(self).map_ref() == *old(self).map_ref()
                &&& final(self).index() == old(self).index()
            },
    {
        match self.inner.next() {
            Some(kv) => Some(kv.1),
            None => None,
        }
    }
}

/// An owning iterator over the entries of a [`IntMap`].
///
/// This struct is created by [`IntMap::into_iter`].
pub struct IntoIter<K: IntKey, V> {
    // The buckets in reverse order, each reversed, so that popping hands out the pairs in
    // order.
    cache: Vec<Vec<(K, V)>>,
}

impl<K: IntKey, V> IntoIter<K, V> {
    /// The pairs that are still to be returned, in the order they will be returned.
    pub closed spec fn remaining(&self) -> Seq<(K, V)> {
        entries(seqs_of(self.cache@)).reverse()
    }

    pub(crate) fn new(vec: Vec<Vec<(K, V)>>) -> (r: Self)
        ensures
            r.remaining() == entries(seqs_of(vec@)),
    {
        let ghost bs = seqs_of(vec@);
        let ghost n = bs.len();
        let mut outer = crate::reversed(vec);
        let mut i: usize = 0;
        while i < outer.len()
            invariant
                outer@.len() == n,
                i <= n,
                n == bs.len(),
                forall|t: int| 0 <= t < i ==> (#[trigger] outer@[t])@ == bs[n - 1 - t].reverse(),
                forall|t: int| i <= t < n ==> (#[trigger] outer@[t])@ == bs[n - 1 - t],
            decreases n - i,
        {
            let mut taken: Vec<(K, V)> = Vec::new();
            std::mem::swap(&mut taken, &mut outer[i]);
            let mut back = crate::reversed(taken);
            std::mem::swap(&mut back, &mut outer[i]);
            i = i + 1;
        }
        proof {
            assert(seqs_of(outer@) =~= rev_all(bs));
            lemma_entries_rev_all(bs);
            assert(entries(bs).reverse().reverse() =~= entries(bs));
        }
        IntoIter { cache: outer }
    }

    /// Returns the next key/value pair, or `None` when all pairs have been returned.
    pub fn next(&mut self) -> (r: Option<(K, V)>)
        ensures
            old(self).remaining().len() > 0 ==> r == Some(old(self).remaining().first())
                && final(self).remaining() == old(self).remaining().drop_first(),
            old(self).remaining().len() == 0 ==> r is None && final(self).remaining()
                == old(self).remaining(),
    {
        let ghost start = entries(seqs_of(self.cache@));
        loop
            invariant
                entries(seqs_of(self.cache@)) == start,
                old(self).remaining() == start.reverse(),
            decreases self.cache@.len(),
        {
            let n = self.cache.len();
            if n == 0 {
                return None;
            }
            let ghost bs = seqs_of(self.cache@);
            proof {
                lemma_entries_drop(bs);
            }
            if self.cache[n - 1].len() > 0 {
                let kv = self.cache[n - 1].pop().unwrap();
                proof {
                    assert(seqs_of(self.cache@) =~= bs.update(bs.len() - 1, bs.last().drop_last()));
                    assert(start.drop_last().reverse() =~= start.reverse().drop_first());
                }
                return Some(kv);
            }
            self.cache.pop();
            proof {
                assert(seqs_of(self.cache@) =~= bs.drop_last());
            }
        }
    }
}

/// A draining iterator for [`IntMap`].
///
/// This struct is created by [`IntMap::drain`]. The map is emptied when the iterator is made;
/// the iterator hands out the pairs that the map held.
///
/// Verified callers end it with `release` to learn what the map
/// holds afterwards.
pub struct Drain<'a, K: IntKey, V> {
    map: &'a mut IntMap<K, V>,
    inner: IntoIter<K, V>,
}

impl<'a, K: IntKey, V> Drain<'a, K, V> {
    /// The map that the iterator borrows.
    pub closed spec fn map_ref(&self) -> &'a mut IntMap<K, V> {
        self.map
    }

    /// The pairs that are still to be returned, in the order they will be returned.
    pub closed spec fn remaining(&self) -> Seq<(K, V)> {
        self.inner.remaining()
    }

    pub(crate) fn new(map: &'a mut IntMap<K, V>, inner: IntoIter<K, V>) -> (r: Self)
        ensures
            r.remaining() == inner.remaining(),
            *r.map_ref() == *old(map),
            *final(r.map_ref()) == *final(map),
    {
        Drain { map, inner }
    }

    /// Ends the iterator's borrow of the map, which stays empty; the pairs not handed out
    /// are dropped.
    ///
    /// An iterator that is dropped instead also hands the map back, but verified callers
    /// learn what the map then holds only through this method.
    pub fn release(self)
        ensures
            *final(self.map_ref()) == *self.map_ref(),
    {
    }

    /// Returns the next key/value pair, or `None` when all pairs have been returned.
    pub fn next(&mut self) -> (r: Option<(K, V)>)
        ensures
            *final(self).map_ref() == *old(self).map_ref(),
            *final(final(self).map_ref()) == *final(old(self).map_ref()),
            old(self).remaining().len() > 0 ==> r == Some(old(self).remaining().first())
                && final(self).remaining() == old(self).remaining().drop_first(),
            old(self).remaining().len() == 0 ==> r is None && final(self).remaining()
                == old(self).remaining(),
    {
        self.inner.next()
    }
}

} // verus!
