//! Digests and the hash functions that make them.

use crate::field::RichField;
use vstd::prelude::*;

verus! {

/// The number of field elements in a `HashOut`.
pub const NUM_HASH_OUT_ELTS: usize = 4;

/// A digest that can be read as field elements. An implementation that Verus sees has to override
/// `elements`; only one in ordinary Rust, which has no words for it, leaves it out.
pub trait GenericHashOut<F: RichField>: Copy + Send + Sync {
    /// The field elements of the digest.
    closed spec fn elements(self) -> Seq<F> {
        arbitrary()
    }

    /// The field elements of the digest.
    fn to_vec(&self) -> (r: Vec<F>)
        ensures
            r@ == self.elements(),
    ;

    /// Whether the two digests are the same.
    fn same_as(&self, other: &Self) -> (r: bool)
        ensures
            r == (*self == *other),
    ;
}

/// A hash function for the leaves and the inner nodes of a tree. It is deterministic: what the
/// two executable methods return is a function of their arguments, and `leaf_digest` and
/// `node_digest` stand for these functions. An implementation that Verus sees has to override both
/// and say there what it computes: as they are, they are the same digest for all arguments. Only
/// an implementation in ordinary Rust, which has no words for them, leaves them out.
pub trait Hasher<F: RichField>: Sized {
    /// The digests that the function produces.
    type Hash: GenericHashOut<F>;

    /// The digest of a leaf.
    closed spec fn leaf_digest(leaf: Seq<F>) -> Self::Hash {
        arbitrary()
    }

    /// The digest of an inner node, from those of its children.
    closed spec fn node_digest(left: Self::Hash, right: Self::Hash) -> Self::Hash {
        arbitrary()
    }

    /// The digest of a leaf.
    fn hash_or_noop(inputs: &[F]) -> (r: Self::Hash)
        ensures
            r == Self::leaf_digest(inputs@),
    ;

    /// The digest of an inner node, from those of its children.
    fn two_to_one(left: Self::Hash, right: Self::Hash) -> (r: Self::Hash)
        ensures
            r == Self::node_digest(left, right),
    ;
}

/// A digest of four field elements.
#[derive(Copy, Debug, PartialEq, Eq)]
pub struct HashOut<F: RichField> {
    pub elements: [F; 4],
}

impl<F: RichField> Clone for HashOut<F> {
    fn clone(&self) -> (r: Self)
        ensures
            r == *self,
    {
        *self
    }
}

impl<F: RichField> HashOut<F> {
    /// The digest whose elements are all zero.
    pub fn zero() -> (r: Self)
        ensures
            r.elements@ == Seq::new(4, |i: int| F::of_canonical(0)),
    {
        let r = HashOut { elements: [F::zero(), F::zero(), F::zero(), F::zero()] };
        assert(r.elements@ =~= Seq::new(4, |i: int| F::of_canonical(0)));
        r
    }
}

/// The elements of a digest, read as field elements, are the four that it holds, in order.
pub proof fn law_hash_out_elements<F: RichField>(hash: HashOut<F>, i: int)
    requires
        0 <= i < 4,
    ensures
        GenericHashOut::<F>::elements(hash).len() == 4,
        GenericHashOut::<F>::elements(hash)[i] == hash.elements@[i],
{
}

impl<F: RichField> GenericHashOut<F> for HashOut<F> {
    open spec fn elements(self) -> Seq<F> {
        self.elements@
    }

    fn to_vec(&self) -> (r: Vec<F>) {
        let mut r: Vec<F> = Vec::with_capacity(NUM_HASH_OUT_ELTS);
        let mut i: usize = 0;
        while i < NUM_HASH_OUT_ELTS
            invariant
                i <= NUM_HASH_OUT_ELTS,
                r@ == self.elements@.take(i as int),
            decreases NUM_HASH_OUT_ELTS - i,
        {
            r.push(self.elements[i]);
            i = i + 1;
        }
        assert(r@ =~= self.elements@);
        r
    }

    fn same_as(&self, other: &Self) -> (r: bool) {
        let mut i: usize = 0;
        while i < NUM_HASH_OUT_ELTS
            invariant
                i <= NUM_HASH_OUT_ELTS,
                forall|j: int| 0 <= j < i ==> self.elements@[j] == other.elements@[j],
            decreases NUM_HASH_OUT_ELTS - i,
        {
            if !self.elements[i].same_as(&other.elements[i]) {
                return false;
            }
            i = i + 1;
        }
        assert(self.elements@ =~= other.elements@);
        assert(self.elements == other.elements);
        true
    }
}

} // verus!
