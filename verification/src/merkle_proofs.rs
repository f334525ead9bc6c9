//! Openings of Merkle trees, and their verification.

use crate::field::RichField;
use crate::hash_types::{GenericHashOut, Hasher};
use crate::merkle_tree::MerkleCap;
use vstd::arithmetic::power2::*;
use vstd::prelude::*;

verus! {

/// The opening of one leaf of a Merkle tree.
#[derive(Clone, Debug, PartialEq, Eq)]
pub struct MerkleProof<F: RichField, H: Hasher<F>> {
    /// The Merkle digest of each sibling subtree, starting from the bottommost layer.
    pub siblings: Vec<H::Hash>,
}

/// A proof that does not lead from the leaf to the cap.
#[derive(Clone, Copy, Debug, PartialEq, Eq)]
pub struct InvalidMerkleProof;

/// The digest at the end of the path that starts at the node `index` with digest `start` and
/// takes in the siblings from the bottom up.
pub open spec fn path_digest<F: RichField, H: Hasher<F>>(
    start: H::Hash,
    index: nat,
    siblings: Seq<H::Hash>,
) -> H::Hash
    decreases siblings.len(),
{
    if siblings.len() == 0 {
        start
    } else {
        let before = path_digest::<F, H>(start, index, siblings.drop_last());
        if (index / pow2((siblings.len() - 1) as nat)) % 2 == 1 {
            H::node_digest(siblings.last(), before)
        } else {
            H::node_digest(before, siblings.last())
        }
    }
}

/// Verifies that the given leaf data is present at the given index in the Merkle tree with the
/// given cap.
pub fn verify_merkle_proof_to_cap<F: RichField, H: Hasher<F>>(
    leaf_data: Vec<F>,
    leaf_index: usize,
    merkle_cap: &MerkleCap<F, H>,
    proof_: &MerkleProof<F, H>,
) -> (r: Result<(), InvalidMerkleProof>)
    requires
        leaf_index as nat / pow2(proof_.siblings@.len()) < merkle_cap.0@.len(),
    ensures
        r is Ok <==> path_digest::<F, H>(
            H::leaf_digest(leaf_data@),
            leaf_index as nat,
            proof_.siblings@,
        ) == merkle_cap.0@[(leaf_index as nat / pow2(proof_.siblings@.len())) as int],
{
    let mut index: usize = leaf_index;
    let ghost start = H::leaf_digest(leaf_data@);
    let mut current_digest: H::Hash = H::hash_or_noop(leaf_data.as_slice());
    let mut i: usize = 0;
    proof {
        lemma2_to64();
        assert(leaf_index as nat / 1 == leaf_index);
        assert(proof_.siblings@.take(0) =~= Seq::empty());
    }
    while i < proof_.siblings.len()
        invariant
            i <= proof_.siblings@.len(),
            index == leaf_index as nat / pow2(i as nat),
            current_digest == path_digest::<F, H>(
                start,
                leaf_index as nat,
                proof_.siblings@.take(i as int),
            ),
        decreases proof_.siblings@.len() - i,
    {
        let sibling_digest: H::Hash = proof_.siblings[i];
        let bit: usize = index & 1;
        proof {
            assert(index & 1 == index % 2) by (bit_vector);
            assert(index >> 1 == index / 2) by (bit_vector);
            lemma2_to64();
            crate::util::lemma_div_pow2_twice(leaf_index as nat, i as nat, 1);
            let next = proof_.siblings@.take(i + 1);
            assert(next.drop_last() =~= proof_.siblings@.take(i as int));
        }
        index = index >> 1;
        current_digest =
        if bit == 1 {
            H::two_to_one(sibling_digest, current_digest)
        } else {
            H::two_to_one(current_digest, sibling_digest)
        };
        i = i + 1;
    }
    assert(proof_.siblings@.take(i as int) =~= proof_.siblings@);
    if current_digest.same_as(&merkle_cap.0[index]) {
        Ok(())
    } else {
        Err(InvalidMerkleProof)
    }
}

} // verus!
