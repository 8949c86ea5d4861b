use vstd::prelude::*;

use crate::prim_int::Int;

verus! {

/// A type that can be used as key for an `IntMap`.
///
/// The type needs to be integer based, i.e. it can be represented by a unique integer.
/// This can be useful for types that wrap integers for type safety or for enforcing
/// invariants.
pub trait IntKey: Copy + Sized {
    /// The underlying integer that will be used as actual key.
    type Int: Int;

    /// The prime number used for hashing.
    ///
    /// The choice might influence the number of key collisions which affects the performance.
    const PRIME: Self::Int;

    /// The integer that stands for the key.
    spec fn int_of(self) -> Self::Int;

    /// Converts the key into the underlying integer.
    ///
    /// `IntMap` assumes that this is a cheap operation.
    fn into_int(self) -> (r: Self::Int)
        ensures
            r == self.int_of(),
    ;

    /// Two different keys never stand for the same integer.
    proof fn lemma_int_of_injective(a: Self, b: Self)
        requires
            a.int_of() == b.int_of(),
        ensures
            a == b,
    ;
}

impl IntKey for u8 {
    type Int = u8;

    // The largest prime below 2^8.
    const PRIME: u8 = 251u8;

    open spec fn int_of(self) -> u8 {
        self
    }

    fn into_int(self) -> (r: u8)
        ensures
            r == self,
    {
        self
    }

    proof fn lemma_int_of_injective(a: Self, b: Self) {
    }
}

impl IntKey for u16 {
    type Int = u16;

    // The largest prime below 2^16.
    const PRIME: u16 = 65521u16;

    open spec fn int_of(self) -> u16 {
        self
    }

    fn into_int(self) -> (r: u16)
        ensures
            r == self,
    {
        self
    }

    proof fn lemma_int_of_injective(a: Self, b: Self) {
    }
}

impl IntKey for u32 {
    type Int = u32;

    // The largest prime below 2^32.
    const PRIME: u32 = 4294967291u32;

    open spec fn int_of(self) -> u32 {
        self
    }

    fn into_int(self) -> (r: u32)
        ensures
            r == self,
    {
        self
    }

    proof fn lemma_int_of_injective(a: Self, b: Self) {
    }
}

impl IntKey for u64 {
    type Int = u64;

    // The largest prime below 2^64.
    const PRIME: u64 = 18446744073709551557u64;

    open spec fn int_of(self) -> u64 {
        self
    }

    fn into_int(self) -> (r: u64)
        ensures
            r == self,
    {
        self
    }

    proof fn lemma_int_of_injective(a: Self, b: Self) {
    }
}

impl IntKey for u128 {
    type Int = u128;

    // The largest prime below 2^128.
    const PRIME: u128 = 340282366920938463463374607431768211297u128;

    open spec fn int_of(self) -> u128 {
        self
    }

    fn into_int(self) -> (r: u128)
        ensures
            r == self,
    {
        self
    }

    proof fn lemma_int_of_injective(a: Self, b: Self) {
    }
}

impl IntKey for usize {
    type Int = usize;

    // The largest prime below 2^64 on 64-bit targets, below 2^32 on 32-bit targets.
    const PRIME: usize = usize::MAX - 4 - 54 * (usize::BITS / 64) as usize;

    open spec fn int_of(self) -> usize {
        self
    }

    fn into_int(self) -> (r: usize)
        ensures
            r == self,
    {
        self
    }

    proof fn lemma_int_of_injective(a: Self, b: Self) {
    }
}

impl IntKey for i8 {
    type Int = u8;

    const PRIME: u8 = <u8 as IntKey>::PRIME;

    open spec fn int_of(self) -> u8 {
        self as u8
    }

    fn into_int(self) -> (r: u8)
        ensures
            r == self as u8,
    {
        self as u8
    }

    proof fn lemma_int_of_injective(a: Self, b: Self) {
        assert(a == b) by (bit_vector)
            requires
                a as u8 == b as u8,
        ;
    }
}

impl IntKey for i16 {
    type Int = u16;

    const PRIME: u16 = <u16 as IntKey>::PRIME;

    open spec fn int_of(self) -> u16 {
        self as u16
    }

    fn into_int(self) -> (r: u16)
        ensures
            r == self as u16,
    {
        self as u16
    }

    proof fn lemma_int_of_injective(a: Self, b: Self) {
        assert(a == b) by (bit_vector)
            requires
                a as u16 == b as u16,
        ;
    }
}

impl IntKey for i32 {
    type Int = u32;

    const PRIME: u32 = <u32 as IntKey>::PRIME;

    open spec fn int_of(self) -> u32 {
        self as u32
    }

    fn into_int(self) -> (r: u32)
        ensures
            r == self as u32,
    {
        self as u32
    }

    proof fn lemma_int_of_injective(a: Self, b: Self) {
        assert(a == b) by (bit_vector)
            requires
                a as u32 == b as u32,
        ;
    }
}

impl IntKey for i64 {
    type Int = u64;

    const PRIME: u64 = <u64 as IntKey>::PRIME;

    open spec fn int_of(self) -> u64 {
        self as u64
    }

    fn into_int(self) -> (r: u64)
        ensures
            r == self as u64,
    {
        self as u64
    }

    proof fn lemma_int_of_injective(a: Self, b: Self) {
        assert(a == b) by (bit_vector)
            requires
                a as u64 == b as u64,
        ;
    }
}

impl IntKey for i128 {
    type Int = u128;

    const PRIME: u128 = <u128 as IntKey>::PRIME;

    open spec fn int_of(self) -> u128 {
        self as u128
    }

    fn into_int(self) -> (r: u128)
        ensures
            r == self as u128,
    {
        self as u128
    }

    proof fn lemma_int_of_injective(a: Self, b: Self) {
        assert(a == b) by (bit_vector)
            requires
                a as u128 == b as u128,
        ;
    }
}

impl IntKey for isize {
    type Int = usize;

    const PRIME: usize = <usize as IntKey>::PRIME;

    open spec fn int_of(self) -> usize {
        self as usize
    }

    fn into_int(self) -> (r: usize)
        ensures
            r == self as usize,
    {
        self as usize
    }

    proof fn lemma_int_of_injective(a: Self, b: Self) {
        assert(a == b) by (bit_vector)
            requires
                a as usize == b as usize,
        ;
    }
}

} // verus!
