# intmap

A hashmap specialised for integer keys, verified with Verus.

A key is turned into an unsigned integer, multiplied (wrapping) by a large prime of its
type, and masked to the table size, which is kept at a power of two. Each slot holds a
small vector of key/value pairs.

Entries and the iterators that borrow the map mutably (`iter_mut`, `values_mut`, `drain`)
have a `release` method: verified callers end them with it (or with a consuming method such
as `into_mut`) to learn what the map holds afterwards.

Layout:

- `src/lib.rs`: the `IntMap` type, its model (`map@` is a `Map<K, V>`), its well-formedness
  invariant and every map operation with its contract.
- `src/buckets.rs`: the model of the table (which pairs sit where, the map they describe,
  their flat order) and the lemmas about it.
- `src/counting.rs`: the model of `collisions` (bucket lengths and how often each occurs).
- `src/entry.rs`: the entry API.
- `src/iter.rs`: the iterators, each with the sequence of pairs it walks.
- `src/int_key.rs`, `src/prim_int.rs`: the key traits and the bucket index of an integer.
- `src/highest_prime.rs`: the `HighestPrime` trait.
- `src/laws.rs`: properties that relate several operations.
- `app/`: what stays outside the verified library: the load factor as a float, `Debug`
  formatting, and collecting from arbitrary iterators.
