use vstd::prelude::*;

verus! {

/// The operations that the map needs from the primitive integer behind a key.
pub trait SealedInt: Copy + Sized {
    /// The bucket that a value falls into: the wrapping product with `prime`, taken as a
    /// `usize` and masked with `mod_mask`.
    spec fn spec_calc_index(self, mod_mask: usize, prime: Self) -> usize;

    /// A masked index never exceeds the mask.
    proof fn lemma_calc_index_bounded(self, mod_mask: usize, prime: Self)
        ensures
            self.spec_calc_index(mod_mask, prime) <= mod_mask,
    ;

    /// A mask that keeps only some of the bits of another gives the bucket of the smaller
    /// table: the larger table's bucket, masked again.
    proof fn lemma_calc_index_submask(self, m1: usize, m2: usize, prime: Self)
        requires
            m1 & m2 == m1,
        ensures
            self.spec_calc_index(m2, prime) & m1 == self.spec_calc_index(m1, prime),
    ;

    /// Computes the bucket index of `self` for a table whose mask is `mod_mask`.
    fn calc_index(self, mod_mask: usize, prime: Self) -> (r: usize)
        ensures
            r == self.spec_calc_index(mod_mask, prime),
            r <= mod_mask,
    ;

    /// Compares two integers for equality.
    fn int_eq(self, other: Self) -> (r: bool)
        ensures
            r == (self == other),
    ;
}

/// A primitive unsigned integer that can be used as underlying key for an `IntMap`.
///
/// Note that this is a sealed trait: its implementations are those of this crate. Consider
/// implementing `IntKey` instead.
pub trait Int: SealedInt {

}

impl SealedInt for u8 {
    open spec fn spec_calc_index(self, mod_mask: usize, prime: Self) -> usize {
        (prime.wrapping_mul(self) as usize) & mod_mask
    }

    proof fn lemma_calc_index_bounded(self, mod_mask: usize, prime: Self) {
        let h = prime.wrapping_mul(self) as usize;
        assert(h & mod_mask <= mod_mask) by (bit_vector);
    }

    proof fn lemma_calc_index_submask(self, m1: usize, m2: usize, prime: Self) {
        let h = prime.wrapping_mul(self) as usize;
        assert((h & m2) & m1 == h & m1) by (bit_vector)
            requires
                m1 & m2 == m1,
        ;
    }

    fn calc_index(self, mod_mask: usize, prime: Self) -> (r: usize) {
        let hash = prime.wrapping_mul(self);
        // Faster modulus
        let r = (hash as usize) & mod_mask;
        proof {
            self.lemma_calc_index_bounded(mod_mask, prime);
        }
        r
    }

    fn int_eq(self, other: Self) -> (r: bool) {
        self == other
    }
}

impl Int for u8 {

}

impl SealedInt for u16 {
    open spec fn spec_calc_index(self, mod_mask: usize, prime: Self) -> usize {
        (prime.wrapping_mul(self) as usize) & mod_mask
    }

    proof fn lemma_calc_index_bounded(self, mod_mask: usize, prime: Self) {
        let h = prime.wrapping_mul(self) as usize;
        assert(h & mod_mask <= mod_mask) by (bit_vector);
    }

    proof fn lemma_calc_index_submask(self, m1: usize, m2: usize, prime: Self) {
        let h = prime.wrapping_mul(self) as usize;
        assert((h & m2) & m1 == h & m1) by (bit_vector)
            requires
                m1 & m2 == m1,
        ;
    }

    fn calc_index(self, mod_mask: usize, prime: Self) -> (r: usize) {
        let hash = prime.wrapping_mul(self);
        // Faster modulus
        let r = (hash as usize) & mod_mask;
        proof {
            self.lemma_calc_index_bounded(mod_mask, prime);
        }
        r
    }

    fn int_eq(self, other: Self) -> (r: bool) {
        self == other
    }
}

impl Int for u16 {

}

impl SealedInt for u32 {
    open spec fn spec_calc_index(self, mod_mask: usize, prime: Self) -> usize {
        (prime.wrapping_mul(self) as usize) & mod_mask
    }

    proof fn lemma_calc_index_bounded(self, mod_mask: usize, prime: Self) {
        let h = prime.wrapping_mul(self) as usize;
        assert(h & mod_mask <= mod_mask) by (bit_vector);
    }

    proof fn lemma_calc_index_submask(self, m1: usize, m2: usize, prime: Self) {
        let h = prime.wrapping_mul(self) as usize;
        assert((h & m2) & m1 == h & m1) by (bit_vector)
            requires
                m1 & m2 == m1,
        ;
    }

    fn calc_index(self, mod_mask: usize, prime: Self) -> (r: usize) {
        let hash = prime.wrapping_mul(self);
        // Faster modulus
        let r = (hash as usize) & mod_mask;
        proof {
            self.lemma_calc_index_bounded(mod_mask, prime);
        }
        r
    }

    fn int_eq(self, other: Self) -> (r: bool) {
        self == other
    }
}

impl Int for u32 {

}

impl SealedInt for u64 {
    open spec fn spec_calc_index(self, mod_mask: usize, prime: Self) -> usize {
        (prime.wrapping_mul(self) as usize) & mod_mask
    }

    proof fn lemma_calc_index_bounded(self, mod_mask: usize, prime: Self) {
        let h = prime.wrapping_mul(self) as usize;
        assert(h & mod_mask <= mod_mask) by (bit_vector);
    }

    proof fn lemma_calc_index_submask(self, m1: usize, m2: usize, prime: Self) {
        let h = prime.wrapping_mul(self) as usize;
        assert((h & m2) & m1 == h & m1) by (bit_vector)
            requires
                m1 & m2 == m1,
        ;
    }

    fn calc_index(self, mod_mask: usize, prime: Self) -> (r: usize) {
        let hash = prime.wrapping_mul(self);
        // Faster modulus
        let r = (hash as usize) & mod_mask;
        proof {
            self.lemma_calc_index_bounded(mod_mask, prime);
        }
        r
    }

    fn int_eq(self, other: Self) -> (r: bool) {
        self == other
    }
}

impl Int for u64 {

}

impl SealedInt for u128 {
    open spec fn spec_calc_index(self, mod_mask: usize, prime: Self) -> usize {
        (prime.wrapping_mul(self) as usize) & mod_mask
    }

    proof fn lemma_calc_index_bounded(self, mod_mask: usize, prime: Self) {
        let h = prime.wrapping_mul(self) as usize;
        assert(h & mod_mask <= mod_mask) by (bit_vector);
    }

    proof fn lemma_calc_index_submask(self, m1: usize, m2: usize, prime: Self) {
        let h = prime.wrapping_mul(self) as usize;
        assert((h & m2) & m1 == h & m1) by (bit_vector)
            requires
                m1 & m2 == m1,
        ;
    }

    fn calc_index(self, mod_mask: usize, prime: Self) -> (r: usize) {
        let hash = prime.wrapping_mul(self);
        // Faster modulus
        let r = (hash as usize) & mod_mask;
        proof {
            self.lemma_calc_index_bounded(mod_mask, prime);
        }
        r
    }

    fn int_eq(self, other: Self) -> (r: bool) {
        self == other
    }
}

impl Int for u128 {

}

impl SealedInt for usize {
    open spec fn spec_calc_index(self, mod_mask: usize, prime: Self) -> usize {
        (prime.wrapping_mul(self) as usize) & mod_mask
    }

    proof fn lemma_calc_index_bounded(self, mod_mask: usize, prime: Self) {
        let h = prime.wrapping_mul(self) as usize;
        assert(h & mod_mask <= mod_mask) by (bit_vector);
    }

    proof fn lemma_calc_index_submask(self, m1: usize, m2: usize, prime: Self) {
        let h = prime.wrapping_mul(self) as usize;
        assert((h & m2) & m1 == h & m1) by (bit_vector)
            requires
                m1 & m2 == m1,
        ;
    }

    fn calc_index(self, mod_mask: usize, prime: Self) -> (r: usize) {
        let hash = prime.wrapping_mul(self);
        // Faster modulus
        let r = (hash as usize) & mod_mask;
        proof {
            self.lemma_calc_index_bounded(mod_mask, prime);
        }
        r
    }

    fn int_eq(self, other: Self) -> (r: bool) {
        self == other
    }
}

impl Int for usize {

}

} // verus!
