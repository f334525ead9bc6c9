use merkle_forest::field::{GoldilocksField, RichField};
use merkle_forest::hash_types::{HashOut, Hasher};
use merkle_forest::merkle_proofs::{verify_merkle_proof_to_cap, InvalidMerkleProof};
use merkle_forest::merkle_tree::{fill_digests_buf, MerkleCap, MerkleTree};

type F = GoldilocksField;

/// A small mixing hash over Goldilocks elements.
#[derive(Clone, Copy, Debug, PartialEq, Eq)]
struct MixHash;

fn absorb(state: &mut [u64; 4], value: u64) {
    for (i, word) in state.iter_mut().enumerate() {
        *word = (word.rotate_left(17 + i as u32) ^ value)
            .wrapping_mul(0x9E37_79B9_7F4A_7C15)
            .wrapping_add(i as u64 + 1);
    }
}

fn squeeze(state: [u64; 4]) -> HashOut<F> {
    HashOut {
        elements: [
            F::from_canonical_u64(state[0]),
            F::from_canonical_u64(state[1]),
            F::from_canonical_u64(state[2]),
            F::from_canonical_u64(state[3]),
        ],
    }
}

impl Hasher<F> for MixHash {
    type Hash = HashOut<F>;

    fn hash_or_noop(inputs: &[F]) -> HashOut<F> {
        let mut state = [1, 2, 3, 4];
        for value in inputs {
            absorb(&mut state, value.to_canonical_u64());
        }
        squeeze(state)
    }

    fn two_to_one(left: HashOut<F>, right: HashOut<F>) -> HashOut<F> {
        let mut state = [5, 6, 7, 8];
        for value in left.elements.iter().chain(right.elements.iter()) {
            absorb(&mut state, value.to_canonical_u64());
        }
        squeeze(state)
    }
}

fn random_data(n: usize, k: usize) -> Vec<Vec<F>> {
    let mut state = 0x0123_4567_89AB_CDEFu64;
    (0..n)
        .map(|_| {
            (0..k)
                .map(|_| {
                    state ^= state << 13;
                    state ^= state >> 7;
                    state ^= state << 17;
                    F::from_canonical_u64(state)
                })
                .collect()
        })
        .collect()
}

fn verify_all_leaves(leaves: Vec<Vec<F>>, cap_height: usize) -> Result<(), InvalidMerkleProof> {
    let tree = MerkleTree::<F, MixHash>::new(leaves.clone(), cap_height);
    for (i, leaf) in leaves.into_iter().enumerate() {
        let proof = tree.prove(i);
        verify_merkle_proof_to_cap(leaf, i, &tree.cap, &proof)?;
    }
    Ok(())
}

#[test]
fn test_cap_height_eq_log2_len() -> Result<(), InvalidMerkleProof> {
    let log_n = 8;
    let n = 1 << log_n;
    let leaves = random_data(n, 7);

    verify_all_leaves(leaves, log_n)?;

    Ok(())
}

#[test]
fn test_merkle_trees() -> Result<(), InvalidMerkleProof> {
    let log_n = 8;
    let n = 1 << log_n;
    let leaves = random_data(n, 7);

    verify_all_leaves(leaves, 1)?;

    Ok(())
}

fn element(n: u64) -> F {
    F::from_canonical_u64(n)
}

fn leaf(n: u64) -> Vec<F> {
    vec![element(n), element(n + 1)]
}

fn leaves_up_to(n: u64) -> Vec<Vec<F>> {
    (0..n).map(|i| leaf(10 * i)).collect()
}

fn hash(n: u64) -> HashOut<F> {
    MixHash::hash_or_noop(&leaf(10 * n))
}

fn join(left: HashOut<F>, right: HashOut<F>) -> HashOut<F> {
    MixHash::two_to_one(left, right)
}

#[test]
fn caps_know_their_size() {
    let cap = MerkleCap::<F, MixHash>::default();
    assert_eq!(cap.len(), 0);
    assert!(cap.is_empty());
    assert_eq!(cap.flatten(), Vec::<F>::new());

    let cap = MerkleTree::<F, MixHash>::new(leaves_up_to(8), 2).cap;
    assert_eq!(cap.len(), 4);
    assert!(!cap.is_empty());
    assert_eq!(cap.height(), 2);
    assert_eq!(MerkleTree::<F, MixHash>::new(leaves_up_to(8), 0).cap.height(), 0);
}

#[test]
fn caps_flatten_digest_after_digest() {
    let first = HashOut { elements: [element(1), element(2), element(3), element(4)] };
    let second = HashOut { elements: [element(5), element(6), element(7), element(8)] };
    let cap = MerkleCap::<F, MixHash>(vec![first, second]);
    let expected: Vec<F> = (1..9).map(element).collect();
    assert_eq!(cap.flatten(), expected);
}

#[test]
fn the_default_tree_is_empty() {
    let tree = MerkleTree::<F, MixHash>::default();
    assert!(tree.leaves.is_empty());
    assert!(tree.digests.is_empty());
    assert!(tree.cap.is_empty());
}

#[test]
fn digests_are_laid_out_around_their_parents() {
    let tree = MerkleTree::<F, MixHash>::new(leaves_up_to(8), 1);
    let left = join(hash(0), hash(1));
    let right = join(hash(2), hash(3));
    let far_left = join(hash(4), hash(5));
    let far_right = join(hash(6), hash(7));
    assert_eq!(
        tree.digests,
        vec![
            hash(0),
            hash(1),
            left,
            right,
            hash(2),
            hash(3),
            hash(4),
            hash(5),
            far_left,
            far_right,
            hash(6),
            hash(7),
        ]
    );
    assert_eq!(tree.cap.0, vec![join(left, right), join(far_left, far_right)]);
    assert_eq!(tree.leaves, leaves_up_to(8));
}

#[test]
fn a_tree_that_is_all_cap_keeps_no_digests() {
    let tree = MerkleTree::<F, MixHash>::new(leaves_up_to(4), 2);
    assert!(tree.digests.is_empty());
    assert_eq!(tree.cap.0, vec![hash(0), hash(1), hash(2), hash(3)]);
    assert!(tree.prove(3).siblings.is_empty());
}

#[test]
fn a_single_leaf_is_its_own_cap() {
    let tree = MerkleTree::<F, MixHash>::new(leaves_up_to(1), 0);
    assert!(tree.digests.is_empty());
    assert_eq!(tree.cap.0, vec![hash(0)]);
    assert_eq!(verify_merkle_proof_to_cap(leaf(0), 0, &tree.cap, &tree.prove(0)), Ok(()));
}

#[test]
fn leaves_are_handed_back() {
    let tree = MerkleTree::<F, MixHash>::new(leaves_up_to(4), 0);
    assert_eq!(tree.get(2), &leaf(20)[..]);
    assert_eq!(tree.get(3), &leaf(30)[..]);
}

#[test]
fn openings_hold_the_siblings_from_the_bottom_up() {
    let tree = MerkleTree::<F, MixHash>::new(leaves_up_to(8), 0);
    let proof = tree.prove(5);
    assert_eq!(
        proof.siblings,
        vec![
            hash(4),
            join(hash(6), hash(7)),
            join(join(hash(0), hash(1)), join(hash(2), hash(3))),
        ]
    );
}

#[test]
fn other_leaves_and_other_places_do_not_verify() {
    let tree = MerkleTree::<F, MixHash>::new(leaves_up_to(8), 1);
    let proof = tree.prove(5);
    assert_eq!(verify_merkle_proof_to_cap(leaf(50), 5, &tree.cap, &proof), Ok(()));
    assert_eq!(
        verify_merkle_proof_to_cap(leaf(51), 5, &tree.cap, &proof),
        Err(InvalidMerkleProof)
    );
    assert_eq!(
        verify_merkle_proof_to_cap(leaf(50), 4, &tree.cap, &proof),
        Err(InvalidMerkleProof)
    );
}

#[test]
fn every_leaf_verifies_under_every_cap() {
    for cap_height in 0..5 {
        assert_eq!(verify_all_leaves(leaves_up_to(16), cap_height), Ok(()));
    }
}

#[test]
fn taller_caps_shorten_openings() {
    let short = MerkleTree::<F, MixHash>::new(leaves_up_to(16), 1);
    let tall = MerkleTree::<F, MixHash>::new(leaves_up_to(16), 3);
    let long_way = short.prove(9).siblings;
    let short_way = tall.prove(9).siblings;
    assert_eq!(long_way.len(), 3);
    assert_eq!(short_way.len(), 1);
    assert_eq!(&long_way[..1], &short_way[..]);
}

#[test]
fn caps_hash_up_to_each_other() {
    let root = MerkleTree::<F, MixHash>::new(leaves_up_to(8), 0).cap.0[0];
    let cap = MerkleTree::<F, MixHash>::new(leaves_up_to(8), 2).cap.0;
    assert_eq!(join(join(cap[0], cap[1]), join(cap[2], cap[3])), root);
}

#[test]
fn subtrees_are_contiguous() {
    let tree = MerkleTree::<F, MixHash>::new(leaves_up_to(16), 2);
    let step = tree.digests.len() / tree.cap.len();
    assert_eq!(step, 6);
    for i in 0..4 {
        let part: Vec<Vec<F>> = leaves_up_to(16)[4 * i..4 * (i + 1)].to_vec();
        let alone = MerkleTree::<F, MixHash>::new(part, 0);
        assert_eq!(&tree.digests[step * i..step * (i + 1)], &alone.digests[..]);
        assert_eq!(tree.cap.0[i], alone.cap.0[0]);
    }
}

#[test]
fn leaves_and_cap_height_determine_the_tree() {
    let one = MerkleTree::<F, MixHash>::new(leaves_up_to(32), 2);
    let two = MerkleTree::<F, MixHash>::new(leaves_up_to(32), 2);
    assert_eq!(one, two);
    assert_ne!(one, MerkleTree::<F, MixHash>::new(leaves_up_to(32), 3));
}

#[test]
fn neighbours_form_a_tree() {
    let all = leaves_up_to(16);
    let left = MerkleTree::<F, MixHash>::new(all[..8].to_vec(), 1);
    let right = MerkleTree::<F, MixHash>::new(all[8..].to_vec(), 1);
    let both = MerkleTree::<F, MixHash>::new(all, 2);
    let mut cap = left.cap.0;
    cap.extend(right.cap.0);
    let mut digests = left.digests;
    digests.extend(right.digests);
    assert_eq!(both.cap.0, cap);
    assert_eq!(both.digests, digests);
}

#[test]
fn other_siblings_do_not_verify() {
    let tree = MerkleTree::<F, MixHash>::new(leaves_up_to(8), 0);
    for layer in 0..3 {
        let mut proof = tree.prove(6);
        proof.siblings[layer].elements[3] = element(12345);
        assert_eq!(
            verify_merkle_proof_to_cap(leaf(60), 6, &tree.cap, &proof),
            Err(InvalidMerkleProof)
        );
    }
}

#[test]
fn openings_are_found_beside_spare_digests() {
    let tree = MerkleTree::<F, MixHash>::new(leaves_up_to(8), 1);
    let mut roomy = tree.clone();
    roomy.digests.truncate(6);
    roomy.digests.push(hash(0));
    roomy.digests.extend(tree.digests[6..].iter().copied());
    roomy.digests.push(hash(0));
    for i in 0..8 {
        assert_eq!(roomy.prove(i), tree.prove(i));
    }
}

#[test]
fn buffers_that_are_all_cap_take_any_number_of_leaves() {
    for n in [0, 1, 3, 5] {
        let leaves = leaves_up_to(n as u64);
        let (digests, cap) = fill_digests_buf::<F, MixHash>(0, n, &leaves, 0);
        assert!(digests.is_empty());
        assert_eq!(cap, (0..n as u64).map(hash).collect::<Vec<_>>());
    }
    let leaves = leaves_up_to(4);
    let (digests, cap) = fill_digests_buf::<F, MixHash>(4, 2, &leaves, 1);
    assert_eq!(digests, vec![hash(0), hash(1), hash(2), hash(3)]);
    assert_eq!(cap, vec![join(hash(0), hash(1)), join(hash(2), hash(3))]);
}
