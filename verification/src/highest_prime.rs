use vstd::prelude::*;

verus! {

/// A large prime of each unsigned integer type.
pub trait HighestPrime: Sized {
    /// The prime of the type.
    spec fn spec_highest_prime() -> Self;

    /// Returns the prime of the type.
    fn highest_prime() -> (r: Self)
        ensures
            r == Self::spec_highest_prime(),
    ;
}

impl HighestPrime for u64 {
    open spec fn spec_highest_prime() -> u64 {
        18_446_744_073_709_551_557
    }

    fn highest_prime() -> (r: u64) {
        18_446_744_073_709_551_557
    }
}

impl HighestPrime for u32 {
    open spec fn spec_highest_prime() -> u32 {
        2_147_483_647
    }

    fn highest_prime() -> (r: u32) {
        2_147_483_647
    }
}

impl HighestPrime for u16 {
    open spec fn spec_highest_prime() -> u16 {
        65_521
    }

    fn highest_prime() -> (r: u16) {
        65_521
    }
}

impl HighestPrime for u8 {
    open spec fn spec_highest_prime() -> u8 {
        251
    }

    fn highest_prime() -> (r: u8) {
        251
    }
}

} // verus!
