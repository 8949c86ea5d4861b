use intmap::{fits_load, Entry, HighestPrime, IntKey, IntMap};

fn pairs_of<K: IntKey, V>(map: IntMap<K, V>) -> Vec<(K, V)> {
    let mut items = Vec::new();
    let mut it = map.into_iter();
    while let Some(kv) = it.next() {
        items.push(kv);
    }
    items
}

fn keys_of(map: &IntMap<u64, u64>) -> Vec<u64> {
    let mut keys = Vec::new();
    let mut it = map.keys();
    while let Some(k) = it.next() {
        keys.push(k);
    }
    keys.sort();
    keys
}

#[test]
fn get_after_insert_sees_new_value_and_leaves_others() {
    let mut map: IntMap<u64, u64> = IntMap::new();
    map.insert(1, 10);
    map.insert(2, 20);
    assert_eq!(map.insert(3, 30), None);
    assert_eq!(map.get(3), Some(&30));
    assert_eq!(map.get(1), Some(&10));
    assert_eq!(map.get(2), Some(&20));
    assert_eq!(map.get(4), None);
}

#[test]
fn remove_undoes_insert_of_new_key() {
    let mut map: IntMap<u64, u64> = IntMap::new();
    map.insert(1, 10);
    map.insert(5, 50);
    let before = IntMap::from_iter(vec![(1, 10), (5, 50)]);
    assert_eq!(map.insert(7, 70), None);
    assert_eq!(map.remove(7), Some(70));
    assert!(map.eq(&before));
    assert_eq!(map.len(), 2);
}

#[test]
fn second_insert_replaces_first() {
    let mut map: IntMap<u32, &str> = IntMap::new();
    assert_eq!(map.insert(9, "a"), None);
    assert_eq!(map.insert(9, "b"), Some("a"));
    assert_eq!(map.get(9), Some(&"b"));
    assert_eq!(map.len(), 1);
}

#[test]
fn get_after_remove_is_none() {
    let mut map: IntMap<u64, u64> = IntMap::new();
    for i in 0..100 {
        map.insert(i, i);
    }
    assert_eq!(map.remove(42), Some(42));
    assert_eq!(map.get(42), None);
    assert!(!map.contains_key(42));
    assert_eq!(map.remove(42), None);
    assert_eq!(map.len(), 99);
}

#[test]
fn len_counts_distinct_keys() {
    let mut map: IntMap<u64, u64> = IntMap::new();
    assert!(map.is_empty());
    map.insert(1, 1);
    map.insert(2, 2);
    map.insert(1, 3);
    assert_eq!(map.len(), 2);
    map.remove(9);
    assert_eq!(map.len(), 2);
    map.remove(1);
    assert_eq!(map.len(), 1);
    assert!(!map.is_empty());
}

#[test]
fn insertion_order_does_not_matter() {
    let forward = IntMap::from_iter((0..500u64).map(|i| (i * 7, i)).collect::<Vec<_>>());
    let backward = IntMap::from_iter((0..500u64).rev().map(|i| (i * 7, i)).collect::<Vec<_>>());
    assert!(forward.eq(&backward));
    assert!(backward.eq(&forward));
}

#[test]
fn from_iter_keeps_last_value_of_repeated_key() {
    let map = IntMap::from_iter(vec![(1u64, 1u64), (2, 2), (1, 3)]);
    assert_eq!(map.len(), 2);
    assert_eq!(map.get(1), Some(&3));
}

#[test]
fn extend_with_new_keys_adds_their_number() {
    let mut map: IntMap<u64, u64> = IntMap::new();
    for i in 0..10 {
        map.insert(i, i);
    }
    map.extend((10..25).map(|i| (i, i)).collect());
    assert_eq!(map.len(), 25);
    map.extend(vec![(3, 300)]);
    assert_eq!(map.len(), 25);
    assert_eq!(map.get(3), Some(&300));
}

#[test]
fn maps_with_different_values_differ() {
    let a = IntMap::from_iter(vec![(1u64, 1u64), (2, 2)]);
    let b = IntMap::from_iter(vec![(1u64, 1u64), (2, 3)]);
    let c = IntMap::from_iter(vec![(2u64, 2u64), (1, 1)]);
    assert!(!a.eq(&b));
    assert!(a.eq(&c));
    let empty: IntMap<u64, u64> = IntMap::new();
    let cleared = {
        let mut m = IntMap::from_iter(vec![(1u64, 1u64)]);
        m.clear();
        m
    };
    assert!(empty.eq(&cleared));
}

#[test]
fn capacity_is_zero_or_a_power_of_two() {
    let mut map: IntMap<u64, u64> = IntMap::new();
    assert_eq!(map.capacity(), 0);
    for i in 0..3000 {
        map.insert(i, i);
        let c = map.capacity();
        assert!(c.is_power_of_two());
        assert!((map.len() - 1) * 1000 / c <= 909);
    }
}

#[test]
fn first_insert_allocates_two_slots() {
    let mut map: IntMap<u64, u64> = IntMap::new();
    map.insert(1, 1);
    assert_eq!(map.capacity(), 2);
    map.insert(2, 2);
    assert_eq!(map.capacity(), 2);
    map.insert(3, 3);
    assert_eq!(map.capacity(), 4);
    map.insert(4, 4);
    assert_eq!(map.capacity(), 4);
    map.insert(5, 5);
    assert_eq!(map.capacity(), 8);
}

#[test]
fn with_capacity_rounds_up_to_power_of_two() {
    assert_eq!(IntMap::<u64, u64>::with_capacity(0).capacity(), 0);
    assert_eq!(IntMap::<u64, u64>::with_capacity(1).capacity(), 2);
    assert_eq!(IntMap::<u64, u64>::with_capacity(2).capacity(), 2);
    assert_eq!(IntMap::<u64, u64>::with_capacity(3).capacity(), 4);
    assert_eq!(IntMap::<u64, u64>::with_capacity(5).capacity(), 8);
    assert_eq!(IntMap::<u64, u64>::with_capacity(1000).capacity(), 1024);
    assert_eq!(IntMap::<u64, u64>::with_capacity(1024).capacity(), 1024);
    assert!(IntMap::<u64, u64>::with_capacity(7).is_empty());
}

#[test]
fn reserve_counts_pairs_already_held() {
    let mut map: IntMap<u64, u64> = IntMap::new();
    map.reserve(9001);
    assert_eq!(map.capacity(), 16384);
    let mut small: IntMap<u64, u64> = IntMap::new();
    for i in 0..3 {
        small.insert(i, i);
    }
    assert_eq!(small.capacity(), 4);
    small.reserve(2);
    assert_eq!(small.capacity(), 8);
    small.reserve(0);
    assert_eq!(small.capacity(), 8);
    assert_eq!(small.len(), 3);
}

#[test]
fn raising_load_factor_stops_growth() {
    let mut map: IntMap<u64, u64> = IntMap::new();
    map.set_load_factor_per_mille(4000);
    assert_eq!(map.load_factor_per_mille(), 4000);
    for i in 0..8 {
        map.insert(i, i);
    }
    assert_eq!(map.capacity(), 2);
    map.set_load_factor_per_mille(1000);
    assert_eq!(map.capacity(), 8);
    assert_eq!(map.len(), 8);
    for i in 0..8 {
        assert_eq!(map.get(i), Some(&i));
    }
}

#[test]
fn default_load_factor() {
    let map: IntMap<u64, u64> = IntMap::default();
    assert_eq!(map.load_factor_per_mille(), 909);
    assert!(map.is_empty());
}

#[test]
fn fits_load_bounds() {
    assert!(fits_load(0, 909));
    assert!(fits_load(20_000, 909));
    assert!(fits_load(12, 0));
    assert!(fits_load(0, 0));
    assert!(!fits_load(usize::MAX, 909));
}

#[test]
fn load_counts_filled_buckets() {
    let empty: IntMap<u64, u64> = IntMap::new();
    assert_eq!(empty.load(), 0);
    let mut map: IntMap<u64, u64> = IntMap::new();
    map.set_load_factor_per_mille(8000);
    for i in 0..8 {
        map.insert(i, i);
    }
    assert_eq!(map.capacity(), 2);
    assert!(map.load() >= 1 && map.load() <= 2);
    assert!(map.assert_count());
}

#[test]
fn collisions_group_bucket_lengths() {
    let mut map: IntMap<u64, u64> = IntMap::new();
    map.set_load_factor_per_mille(8000);
    for i in 0..8 {
        map.insert(i, i);
    }
    let coll = map.collisions();
    let mut total = 0;
    let mut it = coll.iter();
    while let Some((len, &n)) = it.next() {
        assert!(len > 1);
        total += len * n;
    }
    assert!(total <= 8);
    let spread: IntMap<u64, u64> = IntMap::from_iter(vec![(1, 1)]);
    assert!(spread.collisions().is_empty());
}

#[test]
fn insert_checked_keeps_old_value() {
    let mut map: IntMap<u64, &str> = IntMap::new();
    assert!(map.insert_checked(4, "first"));
    assert!(!map.insert_checked(4, "second"));
    assert_eq!(map.get(4), Some(&"first"));
    assert_eq!(map.len(), 1);
}

#[test]
fn get_mut_writes_through() {
    let mut map: IntMap<u64, u64> = IntMap::new();
    map.insert(8, 1);
    *map.get_mut(8).unwrap() = 99;
    assert_eq!(map.get(8), Some(&99));
    assert!(map.get_mut(9).is_none());
    let mut empty: IntMap<u64, u64> = IntMap::new();
    assert!(empty.get_mut(0).is_none());
}

#[test]
fn retain_keeps_exactly_the_accepted_pairs() {
    let mut map: IntMap<u64, u64> = IntMap::new();
    for i in 0..50 {
        map.insert(i, i * 2);
    }
    map.retain(|k, v| k % 3 == 0 && *v < 60);
    let expected: Vec<u64> = (0..30).filter(|k| k % 3 == 0).collect();
    assert_eq!(keys_of(&map), expected);
    assert_eq!(map.len(), expected.len());
    for k in expected {
        assert_eq!(map.get(k), Some(&(k * 2)));
    }
}

#[test]
fn drain_hands_out_everything_and_empties() {
    let mut map: IntMap<u64, u64> = IntMap::new();
    for i in 0..40 {
        map.insert(i, i + 1);
    }
    let capacity = map.capacity();
    let mut seen = Vec::new();
    {
        let mut drain = map.drain();
        while let Some((k, v)) = drain.next() {
            assert_eq!(v, k + 1);
            seen.push(k);
        }
    }
    seen.sort();
    assert_eq!(seen, (0..40).collect::<Vec<_>>());
    assert!(map.is_empty());
    assert_eq!(map.capacity(), capacity);
    map.insert(3, 4);
    assert_eq!(map.get(3), Some(&4));
}

#[test]
fn into_iter_yields_each_pair_once() {
    let map = IntMap::from_iter((0..300u64).map(|i| (i, i + 7)).collect::<Vec<_>>());
    let mut pairs = pairs_of(map);
    pairs.sort();
    assert_eq!(pairs, (0..300u64).map(|i| (i, i + 7)).collect::<Vec<_>>());
}

#[test]
fn iterators_agree_on_order() {
    let map = IntMap::from_iter((0..64u64).map(|i| (i * 13, i)).collect::<Vec<_>>());
    let mut from_iter = Vec::new();
    let mut it = map.iter();
    while let Some((k, v)) = it.next() {
        from_iter.push((k, *v));
    }
    let mut from_keys = Vec::new();
    let mut ks = map.keys();
    while let Some(k) = ks.next() {
        from_keys.push(k);
    }
    let mut from_values = Vec::new();
    let mut vs = map.values();
    while let Some(v) = vs.next() {
        from_values.push(*v);
    }
    assert_eq!(from_keys, from_iter.iter().map(|p| p.0).collect::<Vec<_>>());
    assert_eq!(from_values, from_iter.iter().map(|p| p.1).collect::<Vec<_>>());
    assert_eq!(pairs_of(map), from_iter);
}

#[test]
fn size_hints_are_unbounded() {
    let map = IntMap::from_iter(vec![(1u64, 1u64)]);
    assert_eq!(map.keys().size_hint(), (0, None));
    assert_eq!(map.values().size_hint(), (0, None));
}

#[test]
fn values_mut_and_iter_mut_reach_every_value() {
    let mut map = IntMap::from_iter((0..20u64).map(|i| (i, i)).collect::<Vec<_>>());
    {
        let mut vs = map.values_mut();
        while let Some(v) = vs.next() {
            *v *= 10;
        }
    }
    {
        let mut it = map.iter_mut();
        while let Some((k, v)) = it.next() {
            assert_eq!(*v, k * 10);
            *v += 1;
        }
    }
    for i in 0..20 {
        assert_eq!(map.get(i), Some(&(i * 10 + 1)));
    }
}

#[test]
fn entry_or_insert_variants() {
    let mut map: IntMap<u64, u64> = IntMap::new();
    *map.entry(1).or_insert(5) += 1;
    assert_eq!(map.get(1), Some(&6));
    *map.entry(1).or_insert(100) += 1;
    assert_eq!(map.get(1), Some(&7));

    assert_eq!(*map.entry(2).or_insert_with(|| 20), 20);
    assert_eq!(*map.entry(2).or_insert_with(|| 99), 20);

    assert_eq!(*map.entry(3).or_insert_with_key(|k| k * 100), 300);
    assert_eq!(*map.entry(3).or_insert_with_key(|k| k + 1), 300);

    assert_eq!(*map.entry(4).or_default(), 0);
    *map.entry(4).or_default() += 2;
    assert_eq!(map.get(4), Some(&2));
    assert_eq!(map.len(), 4);
}

#[test]
fn occupied_entry_remove_and_insert() {
    let mut map: IntMap<u64, u64> = IntMap::new();
    map.insert(10, 1);
    map.insert(11, 2);
    match map.entry(10) {
        Entry::Occupied(mut e) => {
            assert_eq!(e.insert(3), 1);
            assert_eq!(*e.get(), 3);
            assert_eq!(e.remove(), 3);
        }
        Entry::Vacant(_) => panic!("key 10 is in the map"),
    }
    assert_eq!(map.len(), 1);
    assert_eq!(map.get(10), None);
    match map.entry(10) {
        Entry::Occupied(_) => panic!("key 10 was removed"),
        Entry::Vacant(e) => {
            *e.insert(4) += 1;
        }
    }
    assert_eq!(map.get(10), Some(&5));
    assert_eq!(map.get(11), Some(&2));
}

#[test]
fn entry_on_empty_map_inserts() {
    let mut map: IntMap<u8, &str> = IntMap::new();
    match map.entry(0) {
        Entry::Occupied(_) => panic!("empty map has no entries"),
        Entry::Vacant(e) => {
            e.insert("zero");
        }
    }
    assert_eq!(map.get(0), Some(&"zero"));
    assert_eq!(map.capacity(), 2);
}

#[test]
fn all_keys_of_small_types() {
    let mut map: IntMap<u8, u16> = IntMap::new();
    for k in 0..=255u8 {
        map.insert(k, k as u16 * 2);
    }
    assert_eq!(map.len(), 256);
    for k in 0..=255u8 {
        assert_eq!(map.get(k), Some(&(k as u16 * 2)));
    }

    let mut signed: IntMap<i8, i8> = IntMap::new();
    for k in -128..=127i8 {
        signed.insert(k, k);
    }
    assert_eq!(signed.len(), 256);
    assert_eq!(signed.get(-1), Some(&-1));
    assert_eq!(signed.get(127), Some(&127));
    assert_eq!(signed.remove(-128), Some(-128));
    assert_eq!(signed.len(), 255);
}

#[test]
fn signed_and_wide_keys() {
    let mut map: IntMap<i64, u8> = IntMap::new();
    map.insert(-1, 1);
    map.insert(i64::MIN, 2);
    map.insert(i64::MAX, 3);
    map.insert(0, 4);
    assert_eq!(map.get(-1), Some(&1));
    assert_eq!(map.get(i64::MIN), Some(&2));
    assert_eq!(map.get(i64::MAX), Some(&3));
    assert_eq!(map.get(0), Some(&4));

    let mut wide: IntMap<u128, u8> = IntMap::new();
    wide.insert(u128::MAX, 1);
    wide.insert(1 << 100, 2);
    assert_eq!(wide.get(u128::MAX), Some(&1));
    assert_eq!(wide.get(1 << 100), Some(&2));
    assert_eq!(wide.get(0), None);

    let mut sized: IntMap<isize, usize> = IntMap::new();
    sized.insert(-5, 5);
    sized.insert(5, 6);
    assert_eq!(sized.get(-5), Some(&5));
    assert_eq!(sized.get(5), Some(&6));
}

#[test]
fn key_to_int_conversions() {
    assert_eq!((-1i8).into_int(), 255u8);
    assert_eq!((-2i16).into_int(), 65534u16);
    assert_eq!(i32::MIN.into_int(), 1u32 << 31);
    assert_eq!((-1i64).into_int(), u64::MAX);
    assert_eq!(7u32.into_int(), 7u32);
}

#[test]
fn bucket_index_formula() {
    // With two slots the bucket of a `u64` key is the low bit of `PRIME * key`; the prime is
    // odd, so keys 0 and 2 share bucket 0.
    let mut map: IntMap<u64, u64> = IntMap::new();
    map.set_load_factor_per_mille(4000);
    map.insert(0, 0);
    map.insert(2, 2);
    assert_eq!(map.capacity(), 2);
    assert_eq!(map.load(), 1);
    let coll = map.collisions();
    assert_eq!(coll.len(), 1);
    assert_eq!(coll.get(2), Some(&1));
    map.insert(1, 1);
    assert_eq!(map.load(), 2);
}

#[test]
fn released_views_leave_the_map_usable() {
    let mut map: IntMap<u64, u64> = IntMap::new();
    map.insert(1, 10);
    map.insert(2, 20);

    map.entry(1).release();
    map.entry(5).release();
    assert_eq!(map.len(), 2);
    assert_eq!(map.get(5), None);

    match map.entry(2) {
        Entry::Occupied(mut e) => {
            *e.get_mut() += 1;
            e.release();
        }
        Entry::Vacant(e) => e.release(),
    }
    assert_eq!(map.get(2), Some(&21));

    let mut it = map.iter_mut();
    while let Some((_, v)) = it.next() {
        *v *= 2;
    }
    it.release();
    assert_eq!(map.get(1), Some(&20));
    assert_eq!(map.get(2), Some(&42));

    let mut vs = map.values_mut();
    if let Some(v) = vs.next() {
        *v += 1;
    }
    vs.release();
    assert_eq!(map.len(), 2);

    let mut drain = map.drain();
    assert!(drain.next().is_some());
    drain.release();
    assert!(map.is_empty());
    assert!(map.assert_count());
}

#[test]
fn extend_with_repeated_keys() {
    let mut map: IntMap<u64, u64> = IntMap::new();
    map.insert(1, 1);
    map.extend(vec![(1, 2), (3, 3), (3, 4), (1, 5)]);
    assert_eq!(map.len(), 2);
    assert_eq!(map.get(1), Some(&5));
    assert_eq!(map.get(3), Some(&4));
}

#[test]
fn clone_copies_pairs() {
    let map = IntMap::from_iter((0..50u64).map(|i| (i, i * 3)).collect::<Vec<_>>());
    let mut copy = map.clone();
    assert!(copy.eq(&map));
    copy.insert(0, 99);
    assert_eq!(map.get(0), Some(&0));
    assert_eq!(copy.capacity(), map.capacity());
}

#[test]
fn highest_primes() {
    assert_eq!(u64::highest_prime(), 18_446_744_073_709_551_557);
    assert_eq!(u32::highest_prime(), 2_147_483_647);
    assert_eq!(u16::highest_prime(), 65_521);
    assert_eq!(u8::highest_prime(), 251);
}

#[test]
fn key_primes() {
    assert_eq!(<u8 as IntKey>::PRIME, 251);
    assert_eq!(<u16 as IntKey>::PRIME, 65_521);
    assert_eq!(<u32 as IntKey>::PRIME, 4_294_967_291);
    assert_eq!(<u64 as IntKey>::PRIME, 18_446_744_073_709_551_557);
    assert_eq!(<u128 as IntKey>::PRIME, u128::MAX - 158);
    assert_eq!(<i32 as IntKey>::PRIME, 4_294_967_291);
    if usize::BITS == 64 {
        assert_eq!(<usize as IntKey>::PRIME as u64, u64::MAX - 58);
    } else {
        assert_eq!(<usize as IntKey>::PRIME as u64, (u32::MAX - 4) as u64);
    }
    assert_eq!(<isize as IntKey>::PRIME, <usize as IntKey>::PRIME);
}

#[test]
fn order_within_a_bucket() {
    fn keys(map: &IntMap<u64, u64>) -> Vec<u64> {
        let mut out = Vec::new();
        let mut it = map.keys();
        while let Some(k) = it.next() {
            out.push(k);
        }
        out
    }
    // Two slots: even keys share bucket 0, which is walked first.
    let mut map: IntMap<u64, u64> = IntMap::new();
    map.set_load_factor_per_mille(8000);
    map.insert(0, 0);
    map.insert(2, 2);
    map.insert(4, 4);
    map.insert(1, 1);
    assert_eq!(map.capacity(), 2);
    assert_eq!(keys(&map), vec![0, 2, 4, 1]);
    // Replacing a value moves its pair to the end of the bucket, the last pair taking its place.
    map.insert(0, 10);
    assert_eq!(keys(&map), vec![4, 2, 0, 1]);
    // Removing swaps the last pair of the bucket into the gap.
    map.remove(4);
    assert_eq!(keys(&map), vec![0, 2, 1]);
    assert!(!map.insert_checked(2, 7));
    assert!(map.insert_checked(6, 6));
    assert_eq!(keys(&map), vec![0, 2, 6, 1]);
}

#[test]
fn growth_keeps_list_order_within_buckets() {
    let mut map: IntMap<u64, u64> = IntMap::new();
    map.set_load_factor_per_mille(8000);
    for k in [0u64, 2, 4, 6] {
        map.insert(k, k);
    }
    assert_eq!(map.capacity(), 2);
    map.set_load_factor_per_mille(1000);
    assert_eq!(map.capacity(), 4);
    // The prime is 1 modulo 4, so with four slots a key's bucket is its two low bits.
    let mut order = Vec::new();
    let mut it = map.keys();
    while let Some(k) = it.next() {
        order.push(k);
    }
    assert_eq!(order, vec![0, 4, 2, 6]);
}

#[test]
fn eq_follows_value_eq() {
    let a: IntMap<u64, f64> = IntMap::from_iter(vec![(1, 1.0), (2, f64::NAN)]);
    let b: IntMap<u64, f64> = IntMap::from_iter(vec![(2, f64::NAN), (1, 1.0)]);
    assert!(!a.eq(&b));
    assert!(!a.eq(&a));
    let c: IntMap<u64, f64> = IntMap::from_iter(vec![(1, 1.0)]);
    let d: IntMap<u64, f64> = IntMap::from_iter(vec![(1, 1.0)]);
    assert!(c.eq(&d));
}

#[test]
fn collisions_map_capacity() {
    let mut map: IntMap<u64, u64> = IntMap::new();
    map.set_load_factor_per_mille(8000);
    for i in 0..16 {
        map.insert(i, i);
    }
    let coll = map.collisions();
    assert_eq!(coll.len(), 1);
    assert_eq!(coll.capacity(), 2);
    let empty: IntMap<u64, u64> = IntMap::new();
    assert_eq!(empty.collisions().capacity(), 0);
}

#[test]
fn extend_layout_matches_inserts() {
    let items: Vec<(u64, u64)> = (0..40u64).map(|i| ((i * 7) % 23, i)).collect();
    let mut one_by_one: IntMap<u64, u64> = IntMap::new();
    for (k, v) in items.iter() {
        one_by_one.insert(*k, *v);
    }
    let mut extended: IntMap<u64, u64> = IntMap::new();
    extended.extend(items.clone());
    assert_eq!(extended.capacity(), one_by_one.capacity());
    let mut a = Vec::new();
    let mut it = extended.iter();
    while let Some((k, v)) = it.next() {
        a.push((k, *v));
    }
    let mut b = Vec::new();
    let mut it = one_by_one.iter();
    while let Some((k, v)) = it.next() {
        b.push((k, *v));
    }
    assert_eq!(a, b);
}
