//! What the bucket of a key is, written as arithmetic on the key: its integer times the
//! type's prime, wrapped to the width of the type, then reduced modulo the number of slots.
//! Because each prime is odd, it has an inverse modulo the width, so keys that the table
//! could tell apart never share a bucket.
use vstd::arithmetic::div_mod::{
    lemma_mod_mod, lemma_mul_mod_noop_left, lemma_mul_mod_noop_right, lemma_small_mod,
};
use vstd::arithmetic::mul::lemma_mul_is_associative;
use vstd::arithmetic::power2::{lemma2_to64, lemma_pow2_adds, lemma_pow2_pos, pow2};
use vstd::prelude::*;

use crate::int_key::IntKey;
use crate::laws::law_bucket_of_key;
use crate::prim_int::SealedInt;
use crate::IntMap;

verus! {

/// How many residues of a key a table of `pow2(n)` slots tells apart, for keys of `w`
/// values: the smaller of the two.
pub open spec fn spread_of(n: nat, w: int) -> int {
    if (pow2(n) as int) < w {
        pow2(n) as int
    } else {
        w
    }
}

/// Multiplying by a number with an inverse modulo `w` keeps apart what differs modulo any
/// divisor `c` of `w`.
proof fn lemma_spread_int(a: int, b: int, p: int, q: int, w: int, c: int)
    requires
        w > 0,
        c > 0,
        w % c == 0,
        (p * q) % w == 1,
        ((a * p) % w) % c == ((b * p) % w) % c,
    ensures
        a % c == b % c,
{
    let d = w / c;
    assert(w == c * d) by (nonlinear_arith)
        requires
            w % c == 0,
            c > 0,
            d == w / c,
    ;
    assert(d > 0) by (nonlinear_arith)
        requires
            w == c * d,
            w > 0,
            c > 0,
    ;
    let pq = p * q;
    lemma_mod_mod(a * p, c, d);
    lemma_mod_mod(b * p, c, d);
    lemma_mod_mod(pq, c, d);
    assert((a * p) % c == (b * p) % c);
    assert(pq % c == 1int % c);
    lemma_mul_mod_noop_left(a * p, q, c);
    lemma_mul_mod_noop_left(b * p, q, c);
    assert(((a * p) * q) % c == ((b * p) * q) % c);
    lemma_mul_is_associative(a, p, q);
    lemma_mul_is_associative(b, p, q);
    assert((a * pq) % c == (b * pq) % c);
    lemma_mul_mod_noop_right(a, pq, c);
    lemma_mul_mod_noop_right(b, pq, c);
    assert((a * (pq % c)) % c == (b * (pq % c)) % c);
    if c > 1 {
        lemma_small_mod(1, c as nat);
        assert(pq % c == 1);
        assert(a * 1 == a && b * 1 == b);
    } else {
        assert(a % c == 0 && b % c == 0);
    }
}

/// Masking with `pow2(n) - 1` takes the remainder modulo `pow2(n)`.
proof fn lemma_mask_usize(h: usize, n: nat)
    requires
        n < usize::BITS,
    ensures
        (h & ((pow2(n) - 1) as usize)) as int == (h as int) % (pow2(n) as int),
{
    vstd::bits::lemma_usize_pow2_no_overflow(n);
    lemma_pow2_pos(n);
    vstd::bits::lemma_usize_low_bits_mask_is_mod(h, n);
}

/// `pow2(n)` divides `pow2(w)` when `n <= w`.
proof fn lemma_pow2_divides(n: nat, w: nat)
    requires
        n <= w,
    ensures
        pow2(w) % pow2(n) == 0,
{
    lemma_pow2_adds(n, (w - n) as nat);
    lemma_pow2_pos(n);
    vstd::arithmetic::div_mod::lemma_mod_multiples_basic(pow2((w - n) as nat) as int, pow2(n) as int);
}

/// The bucket of a `u8` value: the value times the prime, wrapped to 8 bits, modulo the
/// number of slots.
pub proof fn law_calc_index_u8(x: u8, p: u8, n: nat)
    requires
        n < usize::BITS,
    ensures
        x.spec_calc_index((pow2(n) - 1) as usize, p) as int == ((x as int * p as int) % 256) % (
        pow2(n) as int),
{
    let h = p.wrapping_mul(x);
    let m = (pow2(n) - 1) as usize;
    assert(x.spec_calc_index(m, p) == (h as usize) & m);
    assert(h as int == (p as int * x as int) % 256);
    assert((h as usize) as int == h as int);
    assert(p as int * x as int == x as int * p as int) by (nonlinear_arith);
    lemma_mask_usize(h as usize, n);
}

/// Two `u8` values in the same bucket, under a multiplier `p` with an inverse `q` modulo 256
/// (as every odd multiplier has; 51 for the prime 251), agree modulo the number of slots: all
/// 256 values have buckets of their own once there are 256 slots.
pub proof fn law_calc_index_spread_u8(x: u8, y: u8, p: u8, q: u8, n: nat)
    requires
        n < usize::BITS,
        (p as int * q as int) % 256 == 1,
        x.spec_calc_index((pow2(n) - 1) as usize, p) == y.spec_calc_index((pow2(n) - 1) as usize, p),
    ensures
        (x as int) % spread_of(n, 256) == (y as int) % spread_of(n, 256),
{
    law_calc_index_u8(x, p, n);
    law_calc_index_u8(y, p, n);
    lemma2_to64();
    lemma_spread_helper(x as int, y as int, p as int, q as int, 8, n);
}

/// The bucket of a `u16` value: the value times the prime, wrapped to 16 bits, modulo the
/// number of slots.
pub proof fn law_calc_index_u16(x: u16, p: u16, n: nat)
    requires
        n < usize::BITS,
    ensures
        x.spec_calc_index((pow2(n) - 1) as usize, p) as int == ((x as int * p as int) % 65536) % (
        pow2(n) as int),
{
    let h = p.wrapping_mul(x);
    let m = (pow2(n) - 1) as usize;
    assert(x.spec_calc_index(m, p) == (h as usize) & m);
    assert(h as int == (p as int * x as int) % 65536);
    assert((h as usize) as int == h as int);
    assert(p as int * x as int == x as int * p as int) by (nonlinear_arith);
    lemma_mask_usize(h as usize, n);
}

/// Two `u16` values in the same bucket, under a multiplier `p` with an inverse `q` modulo 2^16
/// (as every odd multiplier has; 4369 for the prime 65521), agree modulo the number of slots: all
/// values have buckets of their own once there are as many slots as values.
pub proof fn law_calc_index_spread_u16(x: u16, y: u16, p: u16, q: u16, n: nat)
    requires
        n < usize::BITS,
        (p as int * q as int) % 65536 == 1,
        x.spec_calc_index((pow2(n) - 1) as usize, p) == y.spec_calc_index((pow2(n) - 1) as usize, p),
    ensures
        (x as int) % spread_of(n, 65536) == (y as int) % spread_of(n, 65536),
{
    law_calc_index_u16(x, p, n);
    law_calc_index_u16(y, p, n);
    lemma2_to64();
    lemma_spread_helper(x as int, y as int, p as int, q as int, 16, n);
}

/// The bucket of a `u32` value: the value times the prime, wrapped to 32 bits, modulo the
/// number of slots.
pub proof fn law_calc_index_u32(x: u32, p: u32, n: nat)
    requires
        n < usize::BITS,
    ensures
        x.spec_calc_index((pow2(n) - 1) as usize, p) as int == ((x as int * p as int) % 0x1_0000_0000) % (
        pow2(n) as int),
{
    let h = p.wrapping_mul(x);
    let m = (pow2(n) - 1) as usize;
    assert(x.spec_calc_index(m, p) == (h as usize) & m);
    assert(h as int == (p as int * x as int) % 0x1_0000_0000);
    assert((h as usize) as int == h as int);
    assert(p as int * x as int == x as int * p as int) by (nonlinear_arith);
    lemma_mask_usize(h as usize, n);
}

/// Two `u32` values in the same bucket, under a multiplier `p` with an inverse `q` modulo 2^32
/// (as every odd multiplier has; 858993459 for the prime 4294967291), agree modulo the number of slots: all
/// values have buckets of their own once there are as many slots as values.
pub proof fn law_calc_index_spread_u32(x: u32, y: u32, p: u32, q: u32, n: nat)
    requires
        n < usize::BITS,
        (p as int * q as int) % 0x1_0000_0000 == 1,
        x.spec_calc_index((pow2(n) - 1) as usize, p) == y.spec_calc_index((pow2(n) - 1) as usize, p),
    ensures
        (x as int) % spread_of(n, 0x1_0000_0000) == (y as int) % spread_of(n, 0x1_0000_0000),
{
    law_calc_index_u32(x, p, n);
    law_calc_index_u32(y, p, n);
    lemma2_to64();
    lemma_spread_helper(x as int, y as int, p as int, q as int, 32, n);
}

/// The bucket of a `u64` value: the value times `p`, wrapped to 64 bits, modulo the number of
/// slots.
pub proof fn law_calc_index_u64(x: u64, p: u64, n: nat)
    requires
        n < usize::BITS,
    ensures
        x.spec_calc_index((pow2(n) - 1) as usize, p) as int == ((x as int * p as int)
            % 0x1_0000_0000_0000_0000) % (pow2(n) as int),
{
    let h = p.wrapping_mul(x);
    let m = (pow2(n) - 1) as usize;
    assert(x.spec_calc_index(m, p) == (h as usize) & m);
    assert(h as int == (p as int * x as int) % 0x1_0000_0000_0000_0000);
    assert(p as int * x as int == x as int * p as int) by (nonlinear_arith);
    assert(((h as usize) & m) as u64 == h & (m as u64)) by (bit_vector);
    vstd::bits::lemma_usize_pow2_no_overflow(n);
    lemma_pow2_pos(n);
    vstd::bits::lemma_u64_low_bits_mask_is_mod(h, n);
}

/// Two `u64` values in the same bucket, under a multiplier `p` with an inverse `q` modulo 2^64
/// (3751880150584993549 for the prime 18446744073709551557), agree modulo the number of slots.
pub proof fn law_calc_index_spread_u64(x: u64, y: u64, p: u64, q: u64, n: nat)
    requires
        n < usize::BITS,
        (p as int * q as int) % 0x1_0000_0000_0000_0000 == 1,
        x.spec_calc_index((pow2(n) - 1) as usize, p) == y.spec_calc_index((pow2(n) - 1) as usize, p),
    ensures
        (x as int) % spread_of(n, 0x1_0000_0000_0000_0000) == (y as int) % spread_of(
            n,
            0x1_0000_0000_0000_0000,
        ),
{
    law_calc_index_u64(x, p, n);
    law_calc_index_u64(y, p, n);
    lemma_pow2_64();
    lemma_spread_helper(x as int, y as int, p as int, q as int, 64, n);
}

/// The bucket of a `u128` value: the value times `p`, wrapped to 128 bits, modulo the number
/// of slots.
pub proof fn law_calc_index_u128(x: u128, p: u128, n: nat)
    requires
        n < usize::BITS,
    ensures
        x.spec_calc_index((pow2(n) - 1) as usize, p) as int == ((x as int * p as int) % pow2(128)
            as int) % (pow2(n) as int),
{
    let h = p.wrapping_mul(x);
    let m = (pow2(n) - 1) as usize;
    assert(x.spec_calc_index(m, p) == (h as usize) & m);
    lemma_pow2_128();
    assert(h as int == (p as int * x as int) % pow2(128) as int);
    assert(p as int * x as int == x as int * p as int) by (nonlinear_arith);
    assert(((h as usize) & m) as u128 == ((h as u64) & (m as u64)) as u128) by (bit_vector);
    assert((h as u64) as u128 == h % 0x1_0000_0000_0000_0000u128) by (bit_vector);
    vstd::bits::lemma_usize_pow2_no_overflow(n);
    lemma_pow2_pos(n);
    vstd::bits::lemma_u64_low_bits_mask_is_mod(h as u64, n);
    // (h % 2^64) % 2^n == h % 2^n, as 2^n divides 2^64.
    lemma_pow2_64();
    lemma_pow2_divides(n, 64);
    let d = (pow2(64) / pow2(n)) as int;
    assert(pow2(64) as int == pow2(n) as int * d) by (nonlinear_arith)
        requires
            pow2(64) % pow2(n) == 0,
            pow2(n) > 0,
            d == pow2(64) / pow2(n),
    ;
    assert(d > 0) by (nonlinear_arith)
        requires
            pow2(64) as int == pow2(n) as int * d,
            pow2(n) > 0,
            pow2(64) > 0,
    ;
    lemma_mod_mod(h as int, pow2(n) as int, d);
}

/// Two `u128` values in the same bucket, under a multiplier `p` with an inverse `q` modulo
/// 2^128 (104866892950477891256008526818595234977 for the prime
/// 340282366920938463463374607431768211297), agree modulo the number of slots.
pub proof fn law_calc_index_spread_u128(x: u128, y: u128, p: u128, q: u128, n: nat)
    requires
        n < usize::BITS,
        (p as int * q as int) % pow2(128) as int == 1,
        x.spec_calc_index((pow2(n) - 1) as usize, p) == y.spec_calc_index((pow2(n) - 1) as usize, p),
    ensures
        (x as int) % spread_of(n, pow2(128) as int) == (y as int) % spread_of(n, pow2(128) as int),
{
    law_calc_index_u128(x, p, n);
    law_calc_index_u128(y, p, n);
    lemma_spread_helper(x as int, y as int, p as int, q as int, 128, n);
}

/// The bucket of a `usize` value: the value times `p`, wrapped to the width of `usize`, modulo
/// the number of slots.
pub proof fn law_calc_index_usize(x: usize, p: usize, n: nat)
    requires
        n < usize::BITS,
    ensures
        x.spec_calc_index((pow2(n) - 1) as usize, p) as int == ((x as int * p as int) % (
        usize::MAX as int + 1)) % (pow2(n) as int),
{
    let h = p.wrapping_mul(x);
    let m = (pow2(n) - 1) as usize;
    assert(x.spec_calc_index(m, p) == h & m);
    assert(h as int == (p as int * x as int) % (usize::MAX as int + 1));
    assert(p as int * x as int == x as int * p as int) by (nonlinear_arith);
    lemma_mask_usize(h, n);
}

/// 2^64, spelled out.
proof fn lemma_pow2_64()
    ensures
        pow2(64) == 0x1_0000_0000_0000_0000,
{
    lemma2_to64();
    lemma_pow2_adds(32, 32);
}

/// 2^128 is 2^64 squared.
proof fn lemma_pow2_128()
    ensures
        pow2(128) == 0x1_0000_0000_0000_0000int * 0x1_0000_0000_0000_0000int,
{
    lemma_pow2_64();
    lemma_pow2_adds(64, 64);
}

/// The inverses of the key primes modulo the widths of their types, which make the spread
/// laws apply to the buckets of every map.
pub proof fn law_prime_inverses()
    ensures
        (251int * 51) % 256 == 1,
        (65521int * 4369) % 65536 == 1,
        (4294967291int * 858993459) % 0x1_0000_0000 == 1,
        (18446744073709551557int * 3751880150584993549) % 0x1_0000_0000_0000_0000 == 1,
        (340282366920938463463374607431768211297int * 104866892950477891256008526818595234977)
            % (0x1_0000_0000_0000_0000int * 0x1_0000_0000_0000_0000int) == 1,
{
}

/// The common step of the spread laws: with `w = pow2(bits)` and `p * q == 1` modulo `w`,
/// equal buckets give equal residues modulo `spread_of(n, w)`.
proof fn lemma_spread_helper(a: int, b: int, p: int, q: int, bits: nat, n: nat)
    requires
        (p * q) % (pow2(bits) as int) == 1,
        ((a * p) % (pow2(bits) as int)) % (pow2(n) as int) == ((b * p) % (pow2(bits) as int)) % (
        pow2(n) as int),
    ensures
        a % spread_of(n, pow2(bits) as int) == b % spread_of(n, pow2(bits) as int),
{
    let w = pow2(bits) as int;
    lemma_pow2_pos(bits);
    lemma_pow2_pos(n);
    assert(a * p == p * a && b * p == p * b) by (nonlinear_arith);
    if (pow2(n) as int) < w {
        if n > bits {
            vstd::arithmetic::power2::lemma_pow2_strictly_increases(bits, n);
        }
        lemma_pow2_divides(n, bits);
        lemma_spread_int(a, b, p, q, w, pow2(n) as int);
    } else {
        lemma_small_mod(((a * p) % w) as nat, pow2(n));
        lemma_small_mod(((b * p) % w) as nat, pow2(n));
        lemma_small_mod(((a * p) % w) as nat, w as nat);
        lemma_small_mod(((b * p) % w) as nat, w as nat);
        lemma_spread_int(a, b, p, q, w, w);
    }
}

/// A signed `i8` key stands for its two's-complement bit pattern: non-negative keys for
/// themselves, negative keys for themselves plus 256.
pub proof fn law_key_int_i8(k: i8)
    ensures
        k.int_of() == k as u8,
        k >= 0 ==> k.int_of() as int == k as int,
        k < 0 ==> k.int_of() as int == k as int + 256,
{
    assert(k >= 0 ==> (k as u8) as int == k as int) by (bit_vector);
    assert(k < 0 ==> (k as u8) as int == k as int + 256) by (bit_vector);
}

/// A signed `i16` key stands for its two's-complement bit pattern: non-negative keys for
/// themselves, negative keys for themselves plus 2^16.
pub proof fn law_key_int_i16(k: i16)
    ensures
        k.int_of() == k as u16,
        k >= 0 ==> k.int_of() as int == k as int,
        k < 0 ==> k.int_of() as int == k as int + 65536,
{
    assert(k >= 0 ==> (k as u16) as int == k as int) by (bit_vector);
    assert(k < 0 ==> (k as u16) as int == k as int + 65536) by (bit_vector);
}

/// A signed `i32` key stands for its two's-complement bit pattern: non-negative keys for
/// themselves, negative keys for themselves plus 2^32.
pub proof fn law_key_int_i32(k: i32)
    ensures
        k.int_of() == k as u32,
        k >= 0 ==> k.int_of() as int == k as int,
        k < 0 ==> k.int_of() as int == k as int + 0x1_0000_0000,
{
    assert(k >= 0 ==> (k as u32) as int == k as int) by (bit_vector);
    assert(k < 0 ==> (k as u32) as int == k as int + 0x1_0000_0000) by (bit_vector);
}

/// A signed `i64` key stands for its two's-complement bit pattern: non-negative keys for
/// themselves, negative keys for themselves plus 2^64.
pub proof fn law_key_int_i64(k: i64)
    ensures
        k.int_of() == k as u64,
        k >= 0 ==> k.int_of() as int == k as int,
        k < 0 ==> k.int_of() as int == k as int + 0x1_0000_0000_0000_0000,
{
    assert(k >= 0 ==> (k as u64) as int == k as int) by (bit_vector);
    assert(k < 0 ==> (k as u64) as int == k as int + 0x1_0000_0000_0000_0000) by (bit_vector);
}

/// A signed `i128` key stands for its two's-complement bit pattern: non-negative keys for
/// themselves, negative keys for themselves plus 2^128.
pub proof fn law_key_int_i128(k: i128)
    ensures
        k.int_of() == k as u128,
        k >= 0 ==> k.int_of() as int == k as int,
        k < 0 ==> k.int_of() as int == k as int + u128::MAX as int + 1,
{
    assert(k >= 0 ==> (k as u128) as int == k as int) by (bit_vector);
    assert(k < 0 ==> (k as u128) as int == k as int + u128::MAX as int + 1) by (bit_vector);
}

/// A signed `isize` key stands for its two's-complement bit pattern: non-negative keys for
/// themselves, negative keys for themselves plus 2^`usize::BITS`.
pub proof fn law_key_int_isize(k: isize)
    ensures
        k.int_of() == k as usize,
        k >= 0 ==> k.int_of() as int == k as int,
        k < 0 ==> k.int_of() as int == k as int + usize::MAX as int + 1,
{
    assert(k >= 0 ==> (k as usize) as int == k as int) by (bit_vector);
    let u: usize = !0usize;
    assert(k < 0 ==> (k as usize) as int == k as int + u as int + 1) by (bit_vector)
        requires
            u == !0usize,
    ;
    if usize::BITS == 64 {
        assert(u as u64 == 0xffff_ffff_ffff_ffffu64) by (bit_vector)
            requires
                u == !0usize,
                usize::BITS == 64,
        ;
    } else {
        assert(u as u64 == 0xffff_ffffu64) by (bit_vector)
            requires
                u == !0usize,
                usize::BITS == 32,
        ;
    }
}

/// An unsigned key stands for itself.
pub proof fn law_key_int_unsigned(a: u8, b: u16, c: u32, d: u64, e: u128, f: usize)
    ensures
        a.int_of() == a,
        b.int_of() == b,
        c.int_of() == c,
        d.int_of() == d,
        e.int_of() == e,
        f.int_of() == f,
{
}

/// In a map with `u8` keys and at least one slot, the bucket of a key is the key times
/// the prime, wrapped to 8 bits, modulo the number of slots.
pub proof fn law_bucket_u8<V>(m: IntMap<u8, V>, k: u8)
    requires
        m.wf(),
        m.spec_capacity() > 0,
    ensures
        m.slots()(k) == ((k as int * <u8 as IntKey>::PRIME as int) % 256) % (m.spec_capacity() as int),
{
    law_bucket_of_key(m, k);
    m.lemma_wf();
    law_calc_index_u8(k.int_of(), <u8 as IntKey>::PRIME, m.size_exp());
}

/// In a map with `u16` keys and at least one slot, the bucket of a key is the key times
/// the prime, wrapped to 16 bits, modulo the number of slots.
pub proof fn law_bucket_u16<V>(m: IntMap<u16, V>, k: u16)
    requires
        m.wf(),
        m.spec_capacity() > 0,
    ensures
        m.slots()(k) == ((k as int * <u16 as IntKey>::PRIME as int) % 65536) % (m.spec_capacity() as int),
{
    law_bucket_of_key(m, k);
    m.lemma_wf();
    law_calc_index_u16(k.int_of(), <u16 as IntKey>::PRIME, m.size_exp());
}

/// In a map with `u32` keys and at least one slot, the bucket of a key is the key times
/// the prime, wrapped to 32 bits, modulo the number of slots.
pub proof fn law_bucket_u32<V>(m: IntMap<u32, V>, k: u32)
    requires
        m.wf(),
        m.spec_capacity() > 0,
    ensures
        m.slots()(k) == ((k as int * <u32 as IntKey>::PRIME as int) % 0x1_0000_0000) % (m.spec_capacity() as int),
{
    law_bucket_of_key(m, k);
    m.lemma_wf();
    law_calc_index_u32(k.int_of(), <u32 as IntKey>::PRIME, m.size_exp());
}

/// In a map with `u64` keys and at least one slot, the bucket of a key is the key times
/// the prime, wrapped to 64 bits, modulo the number of slots.
pub proof fn law_bucket_u64<V>(m: IntMap<u64, V>, k: u64)
    requires
        m.wf(),
        m.spec_capacity() > 0,
    ensures
        m.slots()(k) == ((k as int * <u64 as IntKey>::PRIME as int) % 0x1_0000_0000_0000_0000) % (m.spec_capacity() as int),
{
    law_bucket_of_key(m, k);
    m.lemma_wf();
    law_calc_index_u64(k.int_of(), <u64 as IntKey>::PRIME, m.size_exp());
}

/// In a map with `u128` keys and at least one slot, the bucket of a key is the key times
/// the prime, wrapped to 128 bits, modulo the number of slots.
pub proof fn law_bucket_u128<V>(m: IntMap<u128, V>, k: u128)
    requires
        m.wf(),
        m.spec_capacity() > 0,
    ensures
        m.slots()(k) == ((k as int * <u128 as IntKey>::PRIME as int) % pow2(128) as int) % (m.spec_capacity() as int),
{
    law_bucket_of_key(m, k);
    m.lemma_wf();
    law_calc_index_u128(k.int_of(), <u128 as IntKey>::PRIME, m.size_exp());
}

/// In a map with `usize` keys and at least one slot, the bucket of a key is the key times
/// the prime, wrapped to the width of `usize`, modulo the number of slots.
pub proof fn law_bucket_usize<V>(m: IntMap<usize, V>, k: usize)
    requires
        m.wf(),
        m.spec_capacity() > 0,
    ensures
        m.slots()(k) == ((k as int * <usize as IntKey>::PRIME as int) % (usize::MAX as int + 1)) % (m.spec_capacity() as int),
{
    law_bucket_of_key(m, k);
    m.lemma_wf();
    law_calc_index_usize(k.int_of(), <usize as IntKey>::PRIME, m.size_exp());
}

/// In a map with `i8` keys and at least one slot, the bucket of a key is the key's bit pattern times
/// the prime, wrapped to 8 bits, modulo the number of slots.
pub proof fn law_bucket_i8<V>(m: IntMap<i8, V>, k: i8)
    requires
        m.wf(),
        m.spec_capacity() > 0,
    ensures
        m.slots()(k) == (((k as u8) as int * <i8 as IntKey>::PRIME as int) % 256) % (m.spec_capacity() as int),
{
    law_bucket_of_key(m, k);
    m.lemma_wf();
    law_key_int_i8(k);
    law_calc_index_u8(k.int_of(), <i8 as IntKey>::PRIME, m.size_exp());
}

/// In a map with `i16` keys and at least one slot, the bucket of a key is the key's bit pattern times
/// the prime, wrapped to 16 bits, modulo the number of slots.
pub proof fn law_bucket_i16<V>(m: IntMap<i16, V>, k: i16)
    requires
        m.wf(),
        m.spec_capacity() > 0,
    ensures
        m.slots()(k) == (((k as u16) as int * <i16 as IntKey>::PRIME as int) % 65536) % (m.spec_capacity() as int),
{
    law_bucket_of_key(m, k);
    m.lemma_wf();
    law_key_int_i16(k);
    law_calc_index_u16(k.int_of(), <i16 as IntKey>::PRIME, m.size_exp());
}

/// In a map with `i32` keys and at least one slot, the bucket of a key is the key's bit pattern times
/// the prime, wrapped to 32 bits, modulo the number of slots.
pub proof fn law_bucket_i32<V>(m: IntMap<i32, V>, k: i32)
    requires
        m.wf(),
        m.spec_capacity() > 0,
    ensures
        m.slots()(k) == (((k as u32) as int * <i32 as IntKey>::PRIME as int) % 0x1_0000_0000) % (m.spec_capacity() as int),
{
    law_bucket_of_key(m, k);
    m.lemma_wf();
    law_key_int_i32(k);
    law_calc_index_u32(k.int_of(), <i32 as IntKey>::PRIME, m.size_exp());
}

/// In a map with `i64` keys and at least one slot, the bucket of a key is the key's bit pattern times
/// the prime, wrapped to 64 bits, modulo the number of slots.
pub proof fn law_bucket_i64<V>(m: IntMap<i64, V>, k: i64)
    requires
        m.wf(),
        m.spec_capacity() > 0,
    ensures
        m.slots()(k) == (((k as u64) as int * <i64 as IntKey>::PRIME as int) % 0x1_0000_0000_0000_0000) % (m.spec_capacity() as int),
{
    law_bucket_of_key(m, k);
    m.lemma_wf();
    law_key_int_i64(k);
    law_calc_index_u64(k.int_of(), <i64 as IntKey>::PRIME, m.size_exp());
}

/// In a map with `i128` keys and at least one slot, the bucket of a key is the key's bit pattern times
/// the prime, wrapped to 128 bits, modulo the number of slots.
pub proof fn law_bucket_i128<V>(m: IntMap<i128, V>, k: i128)
    requires
        m.wf(),
        m.spec_capacity() > 0,
    ensures
        m.slots()(k) == (((k as u128) as int * <i128 as IntKey>::PRIME as int) % pow2(128) as int) % (m.spec_capacity() as int),
{
    law_bucket_of_key(m, k);
    m.lemma_wf();
    law_key_int_i128(k);
    law_calc_index_u128(k.int_of(), <i128 as IntKey>::PRIME, m.size_exp());
}

/// In a map with `isize` keys and at least one slot, the bucket of a key is the key's bit pattern times
/// the prime, wrapped to the width of `usize`, modulo the number of slots.
pub proof fn law_bucket_isize<V>(m: IntMap<isize, V>, k: isize)
    requires
        m.wf(),
        m.spec_capacity() > 0,
    ensures
        m.slots()(k) == (((k as usize) as int * <isize as IntKey>::PRIME as int) % (usize::MAX as int + 1)) % (m.spec_capacity() as int),
{
    law_bucket_of_key(m, k);
    m.lemma_wf();
    law_key_int_isize(k);
    law_calc_index_usize(k.int_of(), <isize as IntKey>::PRIME, m.size_exp());
}

} // verus!
