//! Field elements as the trees and the GPU kernels see them.

use vstd::prelude::*;

verus! {

/// The Goldilocks prime, `2^64 - 2^32 + 1`.
pub const GOLDILOCKS_MODULUS: u64 = 0xFFFF_FFFF_0000_0001;

/// A field of Goldilocks order.
pub trait RichField: Copy + Send + Sync {
    /// The canonical representative of the element.
    spec fn value(self) -> u64;

    /// The element built from a canonical representative.
    spec fn of_canonical(n: u64) -> Self;

    /// Building an element from a canonical representative keeps the representative.
    proof fn lemma_of_canonical(n: u64)
        requires
            n < GOLDILOCKS_MODULUS,
        ensures
            Self::of_canonical(n).value() == n,
    ;

    /// An element is determined by its canonical representative.
    proof fn lemma_value_determines(self)
        requires
            self.value() < GOLDILOCKS_MODULUS,
        ensures
            Self::of_canonical(self.value()) == self,
    ;

    /// The additive identity.
    fn zero() -> (r: Self)
        ensures
            r == Self::of_canonical(0),
    ;

    /// The canonical representative of the element.
    fn to_canonical_u64(&self) -> (r: u64)
        ensures
            r == self.value(),
            r < GOLDILOCKS_MODULUS,
    ;

    /// The element that `n` represents; `n` is meant to be below the order of the field.
    fn from_canonical_u64(n: u64) -> (r: Self)
        ensures
            r == Self::of_canonical(n),
    ;

    /// Whether the two elements are the same.
    fn same_as(&self, other: &Self) -> (r: bool)
        ensures
            r == (*self == *other),
    ;
}

/// An element of the Goldilocks field, held by its canonical representative.
#[derive(Clone, Copy, Debug, PartialEq, Eq, Structural)]
pub struct GoldilocksField {
    representative: u64,
}

impl GoldilocksField {
    #[verifier::type_invariant]
    spec fn canonical(self) -> bool {
        self.representative < GOLDILOCKS_MODULUS
    }
}

/// The Goldilocks element that `n` stands for has the remainder of `n` by the prime as its
/// canonical representative.
pub proof fn law_goldilocks_elements_are_remainders(n: u64)
    ensures
        GoldilocksField::of_canonical(n).value() == n as int % 0xFFFF_FFFF_0000_0001,
{
}

impl RichField for GoldilocksField {
    closed spec fn value(self) -> u64 {
        self.representative
    }

    closed spec fn of_canonical(n: u64) -> Self {
        GoldilocksField { representative: n % GOLDILOCKS_MODULUS }
    }

    proof fn lemma_of_canonical(n: u64) {
    }

    proof fn lemma_value_determines(self) {
    }

    fn zero() -> (r: Self) {
        GoldilocksField { representative: 0 }
    }

    fn to_canonical_u64(&self) -> (r: u64) {
        proof {
            use_type_invariant(self);
        }
        self.representative
    }

    fn from_canonical_u64(n: u64) -> (r: Self) {
        GoldilocksField { representative: n % GOLDILOCKS_MODULUS }
    }

    fn same_as(&self, other: &Self) -> (r: bool) {
        self.representative == other.representative
    }
}

} // verus!
