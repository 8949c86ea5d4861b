use std::fmt;

use intmap::{Entry, IntKey, IntMap};
use rand::prelude::StdRng;
use rand::{Rng, SeedableRng};

/// Formats a map as `{k: v, ...}`, in iteration order.
struct ShowMap<'a, K: IntKey, V>(&'a IntMap<K, V>);

impl<'a, K: IntKey + fmt::Debug, V: fmt::Debug> fmt::Debug for ShowMap<'a, K, V> {
    fn fmt(&self, f: &mut fmt::Formatter<'_>) -> fmt::Result {
        let mut entries = Vec::new();
        let mut it = self.0.iter();
        while let Some(kv) = it.next() {
            entries.push(kv);
        }
        f.debug_map().entries(entries).finish()
    }
}

fn show<K: IntKey + fmt::Debug, V: fmt::Debug>(map: &IntMap<K, V>) -> String {
    format!("{:?}", ShowMap(map))
}

/// The load of the map as a percentage of its slots.
fn load_rate<K: IntKey, V>(map: &IntMap<K, V>) -> f64 {
    (map.len() as f64) / (map.capacity() as f64) * 100f64
}

fn get_random_range(count: usize) -> Vec<u64> {
    let mut vec = Vec::new();
    let mut rng = StdRng::seed_from_u64(4242);

    for _ in 0..count {
        vec.push(rng.gen::<u64>());
    }

    vec.sort();
    vec.dedup();

    vec
}

fn collect_pairs<K: IntKey, V>(map: IntMap<K, V>) -> Vec<(K, V)> {
    let mut items = Vec::new();
    let mut it = map.into_iter();
    while let Some(kv) = it.next() {
        items.push(kv);
    }
    items
}

#[test]
fn intmap_get_insert_impl() {
    let count = 20_000;
    let data = get_random_range(count);
    let mut map: IntMap<u64, u64> = IntMap::new();

    println!();
    println!("Starting test");

    for s in data.iter() {
        assert!(map.insert_checked(*s, *s), "intmap insert failed! ix: {:?}", s);
    }

    assert_eq!(map.len(), count);
    assert!(map.assert_count());

    for s in data.iter() {
        assert_eq!(*map.get(*s).unwrap(), *s, "intmap get failed! key: {:?}", s);
    }

    assert_eq!(map.len(), count);

    for s in data.iter() {
        assert!(map.contains_key(*s), "intmap contains_key failed! key: {:?}", s);
    }

    assert_eq!(map.len(), count);

    for s in data.iter() {
        let val = map.remove(*s).unwrap();
        assert_eq!(val, *s, "intmap remove failed! key: {:?}", s);
    }

    assert_eq!(map.len(), 0);
    assert!(map.assert_count());
}

#[test]
fn reserve() {
    let mut map: IntMap<u64, bool> = IntMap::new();
    map.reserve(9001);
}

#[test]
fn add_duplicate() {
    let mut map = IntMap::new();

    for i in 0..20_000 {
        assert_eq!(map.insert(i, format!("item: {:?}", i)), None);
        assert_eq!(map.insert(i, format!("item: {:?}", i)), Some(format!("item: {:?}", i)));
    }
}

#[test]
fn add_duplicate_replace() {
    let mut map = IntMap::new();

    for i in 0..20_000 {
        assert!(map.insert_checked(i, format!("item: {:?}", i)));
        assert!(!map.insert_checked(i, format!("item: {:?}", i)));
    }
}

#[test]
fn get_value_map() {
    let mut map = IntMap::new();

    for i in 0..20_000 {
        assert!(map.insert_checked(i, i + 1));
    }

    for i in 0..20_000 {
        assert!(map.contains_key(i));
        assert_eq!(*map.get(i).unwrap(), i + 1);
        assert_eq!(*map.get_mut(i).unwrap(), i + 1);
        assert_eq!(map.remove(i).unwrap(), i + 1);
    }

    for i in 0..20_000 {
        assert!(!map.contains_key(i));
        assert_eq!(map.remove(i), None);
    }

    assert!(map.is_empty());
}

#[test]
fn get_value_not_in_map() {
    let mut map = IntMap::new();

    for i in 0..20_000 {
        assert!(map.insert_checked(i, format!("item: {:?}", i)));
    }

    for i in 20_000..40_000 {
        assert_eq!(map.get(i), None);
        assert_eq!(map.get_mut(i), None);
    }
}

#[test]
fn add_string() {
    let mut map = IntMap::new();

    for i in 0..20_000 {
        map.insert(i, format!("item: {:?}", i));
    }
}

#[test]
fn retain() {
    let mut map = IntMap::new();

    for i in 0..20_000 {
        map.insert(i, format!("item: {:?}", i));
    }

    map.retain(|k, _v| k > 10_000);

    for i in 10_001..20_000 {
        assert!(map.contains_key(i));
    }
}

#[test]
fn single_add_get() {
    let mut map: IntMap<u64, u64> = IntMap::new();
    map.insert(21, 42);
    let val = map.get(21);
    assert!(val.is_some());
    assert_eq!(*val.unwrap(), 42);
}

#[test]
fn map_iter() {
    let count = 20_000;
    let mut map: IntMap<u64, u64> = IntMap::new();

    for i in 0..count {
        map.insert(i, i);
    }

    let mut it = map.iter();
    while let Some((k, v)) = it.next() {
        assert_eq!(k, *v);
    }
}

#[test]
fn map_iter_keys() {
    let count = 20_000;
    let data: Vec<_> = (0..count).collect();
    let mut map: IntMap<u64, u64> = IntMap::new();

    for i in 0..count {
        map.insert(i, i);
    }

    let mut keys = map.keys();
    while let Some(k) = keys.next() {
        assert_eq!(k, data[k as usize]);
    }
}

#[test]
fn map_iter_values() {
    let count = 20_000;
    let data: Vec<_> = (0..count).collect();
    let mut map: IntMap<u64, u64> = IntMap::new();

    for i in 0..count {
        map.insert(i, i);
    }

    let mut values = map.values();
    while let Some(v) = values.next() {
        assert_eq!(*v, data[*v as usize]);
    }
}

#[test]
fn map_iter_values_mut() {
    let count = 20_000;
    let mut map: IntMap<u64, u64> = IntMap::new();

    for i in 0..count {
        map.insert(i, i);
    }

    let mut values = map.values_mut();
    while let Some(value) = values.next() {
        *value += 1;
    }

    for n in 0..count {
        assert_eq!(n + 1, *map.get(n).expect("Failed to get number!"));
    }
}

#[test]
fn map_mut_iter() {
    let count = 20_000;
    let mut map: IntMap<u64, u64> = IntMap::new();

    for i in 0..count {
        map.insert(i, i);
    }

    let mut it = map.iter_mut();
    while let Some(kv) = it.next() {
        *kv.1 += 1;
    }

    for n in 0..count {
        assert_eq!(n + 1, *map.get(n).expect("Failed to get number!"));
    }
}

#[test]
fn map_iter_empty() {
    let mut map: IntMap<u64, u64> = IntMap::new();
    map.clear();

    if let Some(kv) = map.iter().next() {
        panic!("Not printing: {:?}", kv);
    }
}

#[test]
fn map_mut_iter_empty() {
    let mut map: IntMap<u64, u64> = IntMap::new();
    map.clear();

    if let Some(kv) = map.iter_mut().next() {
        panic!("Not printing: {:?}", kv);
    }
}

#[test]
fn map_into_iter() {
    let count = 20_000;
    let mut map: IntMap<u64, u64> = IntMap::new();

    for i in 0..count {
        map.insert(i, i);
    }

    let mut it = map.into_iter();
    while let Some((k, v)) = it.next() {
        assert_eq!(k, v);
    }
}

#[test]
fn map_drain() {
    let count = 20_000;
    let mut map: IntMap<u64, u64> = IntMap::new();

    for i in 0..count {
        map.insert(i, i);
    }

    let mut drain = map.drain();
    while let Some((k, v)) = drain.next() {
        assert_eq!(k, v);
    }
    assert_eq!(map.len(), 0);
}

#[test]
fn map_into_iter_empty() {
    let mut map: IntMap<u64, u64> = IntMap::new();
    map.clear();

    if let Some(kv) = map.into_iter().next() {
        panic!("Not printing: {:?}", kv);
    }
}

#[test]
fn extend_two_maps() {
    let count = 20_000;
    let mut map_1: IntMap<u64, u64> = IntMap::new();
    let mut map_2: IntMap<u64, u64> = IntMap::new();

    for i in 0..count {
        map_1.insert(i, i);
    }

    for i in count..(count * 2) {
        map_2.insert(i, i);
    }

    map_1.extend(collect_pairs(map_2));

    assert_eq!(map_1.len(), (count * 2) as usize);

    let mut it = map_1.iter();
    while let Some((k, &v)) = it.next() {
        assert_eq!(k, v);
    }
}

#[test]
fn from_iter_collect() {
    let count = 20_000;

    let map = IntMap::from_iter((0..count).map(|i| (i, i * i)).collect::<Vec<_>>());

    for k in 0..count {
        assert!(map.contains_key(k));
    }

    let mut it = map.iter();
    while let Some((k, &v)) = it.next() {
        assert_eq!(k * k, v);
    }
}

#[test]
fn map_equality() {
    let count = 5_000;

    let map_1 = IntMap::from_iter((0..count).map(|i| (i, i * i)).collect::<Vec<_>>());

    let map_2 = IntMap::from_iter((0..count).rev().map(|i| (i, i * i)).collect::<Vec<_>>());

    assert!(map_1.eq(&map_2));
}

#[test]
fn map_inequality() {
    let map_1 = IntMap::from_iter((0..10).map(|i| (i, i * i)).collect::<Vec<_>>());
    let map_2 = IntMap::from_iter((0..5).rev().map(|i| (i, i * i)).collect::<Vec<_>>());

    assert!(!map_1.eq(&map_2));
    assert!(!map_2.eq(&map_1));
}

#[test]
fn entry_api() {
    let count = 20_000;
    let data: Vec<u64> = (0..count).collect();
    let mut map: IntMap<u64, u64> = IntMap::new();

    // Insert values 0..19999
    for i in 0..count {
        match map.entry(i) {
            Entry::Occupied(_) => panic!("unexpected while insert, i = {}", i),
            Entry::Vacant(entry) => entry.insert(i),
        };
    }

    assert_eq!(map.len(), count as usize);

    let mut it = map.iter();
    while let Some((k, &v)) = it.next() {
        assert_eq!(v, data[k as usize]);
    }

    // Replace values 0..19999 with 20000..39999
    for i in 0..count {
        match map.entry(i) {
            Entry::Occupied(mut entry) => {
                assert_eq!(*entry.get(), i);
                assert_eq!(*entry.get_mut(), i);
                assert_eq!(entry.insert(count + i), i);
                assert_eq!(*entry.into_mut(), count + i);
            }
            Entry::Vacant(_) => panic!("unexpected while replace, i = {}", i),
        };
    }

    assert_eq!(map.len(), count as usize);

    let mut it = map.iter();
    while let Some((k, &v)) = it.next() {
        assert_eq!(v, count + data[k as usize]);
    }

    // Remove values 20000..39999
    for i in 0..count {
        match map.entry(i) {
            Entry::Occupied(entry) => {
                assert_eq!(entry.remove(), count + i);
            }
            Entry::Vacant(_) => panic!("unexpected while remove, i = {}", i),
        };
    }

    assert_eq!(map.len(), 0);
}

#[test]
fn test_debug_features() {
    let count = 20_000;
    let mut map: IntMap<u64, u64> = IntMap::new();

    for i in 0..count {
        map.insert(i, i);
    }

    assert_eq!(map.load(), 20_000);
    assert_eq!(map.capacity(), 32_768);
    assert!(load_rate(&map) > 0.70);
    assert!(map.collisions().is_empty());

    let mut map: IntMap<u64, u64> = IntMap::new();
    for i in 0..3 {
        map.insert(i, i + 1);
    }

    assert_eq!(show(&map), "{0: 1, 1: 2, 2: 3}");
}

#[test]
fn load_factor() {
    let mut map: IntMap<u64, u64> = IntMap::new();

    map.set_load_factor_per_mille(0);
    assert_eq!(map.load_factor_per_mille() as f32 / 1000., 0.0);

    for i in 0..12 {
        map.insert(i, i);
    }

    assert_eq!(map.capacity(), 16384);
    assert!(load_rate(&map) <= 1.);
    assert!(map.collisions().is_empty());

    let mut map: IntMap<u64, u64> = IntMap::new();

    map.set_load_factor_per_mille(100);
    assert_eq!(map.load_factor_per_mille() as f32 / 1000., 0.1);

    for i in 0..12 {
        map.insert(i, i);
    }

    assert_eq!(map.capacity(), 128);
    assert!(load_rate(&map) <= 10.);
    assert!(map.collisions().is_empty());

    let mut map: IntMap<u64, u64> = IntMap::new();

    map.set_load_factor_per_mille(2000);
    assert_eq!(map.load_factor_per_mille() as f32 / 1000., 2.);

    for i in 0..16 {
        map.insert(i, i);
    }

    println!("Load {}", load_rate(&map));
    println!("factor {:?}", show(&map.collisions()));

    assert_eq!(map.capacity(), 8);
    assert!(load_rate(&map) <= 200.);
    assert_eq!(show(&map.collisions()), "{2: 8}");
}

#[test]
fn insert_after_remove() {
    let mut intmap = IntMap::new();
    let key = 65;
    intmap.insert(key, "foo");
    intmap.remove(key);
    let _ = match intmap.entry(key) {
        intmap::Entry::Occupied(_) => unreachable!(),
        intmap::Entry::Vacant(vacant_entry) => *vacant_entry.insert("bar"),
    };
    assert_eq!(show(&intmap), "{65: \"bar\"}");
    assert!(intmap.contains_key(key));
}
