//! Merkle trees with a cap.

use crate::field::RichField;
use crate::gpu_readback::GpuMerkleOutput;
use crate::hash_types::{GenericHashOut, HashOut, Hasher};
use crate::merkle_proofs::MerkleProof;
use crate::parallel;
use crate::tree_model::{
    forest_layout, leaf_digests, slot, subtree_layout, subtree_len, tree_layer, tree_node,
    tree_nodes,
};
use crate::util::{is_two_power, log2, log2_strict, shift_right, two_power};
use vstd::arithmetic::power2::*;
use vstd::prelude::*;

verus! {

/// The Merkle cap of height `h` of a Merkle tree is the `h`-th layer (from the root) of the tree.
/// It can be used in place of the root to verify Merkle paths, which are `h` elements shorter.
#[derive(Clone, Debug, PartialEq, Eq)]
pub struct MerkleCap<F: RichField, H: Hasher<F>>(pub Vec<H::Hash>);

impl<F: RichField, H: Hasher<F>> Default for MerkleCap<F, H> {
    fn default() -> (r: Self)
        ensures
            r.0@ == Seq::<H::Hash>::empty(),
    {
        MerkleCap(Vec::new())
    }
}

impl<F: RichField, H: Hasher<F>> MerkleCap<F, H> {
    /// The number of digests in the cap.
    pub fn len(&self) -> (r: usize)
        ensures
            r == self.0@.len(),
    {
        self.0.len()
    }

    /// Whether the cap holds no digest.
    pub fn is_empty(&self) -> (r: bool)
        ensures
            r == (self.0@.len() == 0),
    {
        self.len() == 0
    }

    /// The height of the cap: the base two logarithm of its length.
    pub fn height(&self) -> (r: usize)
        requires
            is_two_power(self.0@.len()),
        ensures
            r == log2(self.0@.len()),
            self.0@.len() == pow2(r as nat),
    {
        log2_strict(self.len())
    }

    /// The field elements of all digests, one digest after the other.
    pub fn flatten(&self) -> (r: Vec<F>)
        ensures
            r@ == self.0@.flat_map(|digest: H::Hash| digest.elements()),
    {
        let ghost elements = |digest: H::Hash| digest.elements();
        let mut r: Vec<F> = Vec::new();
        let mut i: usize = 0;
        assert(self.0@.take(0).flat_map(elements) =~= Seq::empty());
        while i < self.0.len()
            invariant
                i <= self.0@.len(),
                elements == (|digest: H::Hash| digest.elements()),
                r@ == self.0@.take(i as int).flat_map(elements),
            decreases self.0@.len() - i,
        {
            let mut part: Vec<F> = self.0[i].to_vec();
            r.append(&mut part);
            proof {
                self.0@.lemma_flat_map_take_append(elements, i as int);
            }
            i = i + 1;
        }
        assert(self.0@.take(i as int) =~= self.0@);
        r
    }
}

/// A Merkle tree over vectors of field elements.
#[derive(Clone, Debug, PartialEq, Eq)]
pub struct MerkleTree<F: RichField, H: Hasher<F>> {
    /// The data in the leaves of the Merkle tree.
    pub leaves: Vec<Vec<F>>,
    /// The digests in the tree. Consists of `cap.len()` sub-trees, each corresponding to one
    /// element in `cap`. Each subtree is contiguous and located at
    /// `digests[digests.len() / cap.len() * i..digests.len() / cap.len() * (i + 1)]`.
    /// Within each subtree, siblings are stored next to each other. The layout is,
    /// left_child_subtree || left_child_digest || right_child_digest || right_child_subtree, where
    /// left_child_digest and right_child_digest are H::Hash and left_child_subtree and
    /// right_child_subtree recurse. Observe that the digest of a node is stored by its _parent_.
    /// Consequently, the digests of the roots are not stored here (they can be found in `cap`).
    pub digests: Vec<H::Hash>,
    /// The Merkle cap.
    pub cap: MerkleCap<F, H>,
}

impl<F: RichField, H: Hasher<F>> Default for MerkleTree<F, H> {
    fn default() -> (r: Self)
        ensures
            r.leaves@ == Seq::<Vec<F>>::empty(),
            r.digests@ == Seq::<H::Hash>::empty(),
            r.cap.0@ == Seq::<H::Hash>::empty(),
    {
        MerkleTree { leaves: Vec::new(), digests: Vec::new(), cap: MerkleCap::default() }
    }
}

impl<F: RichField, H: Hasher<F>> MerkleTree<F, H> {
    /// The digests of the leaves.
    pub open spec fn base(self) -> Seq<H::Hash> {
        leaf_digests::<F, H>(self.leaves@)
    }

    /// The number of layers below the cap.
    pub open spec fn layers_to_cap(self) -> nat {
        (log2(self.leaves@.len()) - log2(self.cap.0@.len())) as nat
    }

    /// The sizes fit together: leaf count and cap length are powers of two, and every node below
    /// the cap has a place in `digests`.
    pub open spec fn well_shaped(self) -> bool {
        &&& is_two_power(self.leaves@.len())
        &&& is_two_power(self.cap.0@.len())
        &&& self.cap.0@.len() <= self.leaves@.len()
        &&& self.digests@.len() == 2 * (self.leaves@.len() - self.cap.0@.len())
    }

    /// The number of digests for each element of the cap.
    pub open spec fn tree_len(self) -> nat {
        self.digests@.len() / self.cap.0@.len()
    }

    /// Leaf count and cap length are powers of two, and for each element of the cap there are
    /// enough digests for the nodes below it.
    pub open spec fn openable(self) -> bool {
        &&& is_two_power(self.leaves@.len())
        &&& is_two_power(self.cap.0@.len())
        &&& self.cap.0@.len() <= self.leaves@.len()
        &&& subtree_len(self.layers_to_cap()) <= self.tree_len()
    }

    /// The cap and the digests are those of the tree over the leaves.
    pub open spec fn consistent(self) -> bool {
        &&& self.well_shaped()
        &&& self.cap.0@ == tree_layer::<F, H>(
            self.base(),
            self.layers_to_cap(),
            self.cap.0@.len(),
        )
        &&& self.digests@ == forest_layout(
            tree_nodes::<F, H>(self.base()),
            self.layers_to_cap(),
            self.cap.0@.len(),
        )
    }

    /// The siblings on the way from the leaf `leaf_index` to the cap, from the bottom up.
    pub open spec fn opening(self, leaf_index: nat) -> Seq<H::Hash> {
        Seq::new(
            self.layers_to_cap(),
            |i: int|
                self.digests@[sibling_place(
                    self.tree_len(),
                    leaf_index,
                    self.layers_to_cap(),
                    i as nat,
                )],
        )
    }

    /// The tree over `leaves` with a cap of height `cap_height`.
    pub open spec fn is_tree_of(self, leaves: Seq<Vec<F>>, cap_height: nat) -> bool {
        &&& self.leaves@ == leaves
        &&& self.cap.0@.len() == pow2(cap_height)
        &&& self.consistent()
    }
}

/// The digest of the root over `leaves`, and the digests below it in the order of
/// `MerkleTree::digests`.
pub fn fill_subtree<F: RichField, H: Hasher<F>>(leaves: &[Vec<F>]) -> (r: (H::Hash, Vec<H::Hash>))
    requires
        is_two_power(leaves@.len()),
    ensures
        r.0 == tree_node::<F, H>(leaf_digests::<F, H>(leaves@), log2(leaves@.len()), 0),
        r.1@ == subtree_layout(
            tree_nodes::<F, H>(leaf_digests::<F, H>(leaves@)),
            log2(leaves@.len()),
            0,
        ),
    decreases leaves@.len(),
{
    let ghost height = log2(leaves@.len());
    let ghost base = leaf_digests::<F, H>(leaves@);
    proof {
        lemma2_to64();
        lemma_pow2_pos(height);
    }
    if leaves.len() == 1 {
        proof {
            crate::util::lemma_log2(0);
        }
        let digest = H::hash_or_noop(leaves[0].as_slice());
        let below: Vec<H::Hash> = Vec::new();
        (digest, below)
    } else {
        let half: usize = leaves.len() / 2;
        let left: &[Vec<F>] = vstd::slice::slice_subrange(leaves, 0, half);
        let right: &[Vec<F>] = vstd::slice::slice_subrange(leaves, half, leaves.len());
        proof {
            if height == 0 {
                assert(false);
            }
            let below = (height - 1) as nat;
            lemma_pow2_unfold(height);
            crate::util::lemma_log2(below);
            assert(half == pow2(below));
            let n = half as int;
            assert(leaf_digests::<F, H>(left@) =~= base.subrange(0 * n, (0 + 1) * n));
            assert(leaf_digests::<F, H>(right@) =~= base.subrange(1 * n, (1 + 1) * n));
            crate::tree_model::lemma_window_node::<F, H>(base, below, 0, below, 0);
            crate::tree_model::lemma_window_node::<F, H>(base, below, 1, below, 0);
            crate::tree_model::lemma_window_layout::<F, H>(base, below, 0, below, 0);
            crate::tree_model::lemma_window_layout::<F, H>(base, below, 1, below, 0);
        }
        let fill_left = || -> (o: (H::Hash, Vec<H::Hash>))
            requires
                is_two_power(left@.len()),
                leaves@.len() > left@.len(),
            ensures
                o.0 == tree_node::<F, H>(leaf_digests::<F, H>(left@), log2(left@.len()), 0),
                o.1@ == subtree_layout(
                    tree_nodes::<F, H>(leaf_digests::<F, H>(left@)),
                    log2(left@.len()),
                    0,
                ),
            {
                fill_subtree::<F, H>(left)
            };
        let fill_right = || -> (o: (H::Hash, Vec<H::Hash>))
            requires
                is_two_power(right@.len()),
                leaves@.len() > right@.len(),
            ensures
                o.0 == tree_node::<F, H>(leaf_digests::<F, H>(right@), log2(right@.len()), 0),
                o.1@ == subtree_layout(
                    tree_nodes::<F, H>(leaf_digests::<F, H>(right@)),
                    log2(right@.len()),
                    0,
                ),
            {
                fill_subtree::<F, H>(right)
            };
        let (left_result, right_result) = parallel::join(fill_left, fill_right);
        let (left_digest, mut digests) = left_result;
        let (right_digest, mut right_digests) = right_result;
        digests.push(left_digest);
        digests.push(right_digest);
        digests.append(&mut right_digests);
        assert(digests@ =~= subtree_layout(tree_nodes::<F, H>(base), height, 0));
        (H::two_to_one(left_digest, right_digest), digests)
    }
}

/// The cap of a tree that is all cap: the digests of the leaves.
fn hash_leaves<F: RichField, H: Hasher<F>>(leaves: &[Vec<F>]) -> (r: Vec<H::Hash>)
    ensures
        r@ == leaf_digests::<F, H>(leaves@),
{
    let hash = |leaf: &[Vec<F>]| -> (o: H::Hash)
        requires
            leaf@.len() == 1,
        ensures
            o == H::leaf_digest(leaf@[0]@),
        {
            H::hash_or_noop(leaf[0].as_slice())
        };
    let cap: Vec<H::Hash> = parallel::map_chunks_exact(leaves, 1, hash);
    proof {
        assert(leaves@.len() as int / 1 == leaves@.len());
        assert forall|i: int| 0 <= i < cap@.len() implies #[trigger] cap@[i] == H::leaf_digest(
            leaves@[i]@,
        ) by {
            let leaf = choose|leaf: &[Vec<F>]|
                leaf@ == parallel::chunk_at(leaves@, 1, i) && hash.ensures((leaf,), cap@[i]);
            assert(leaf@[0] == leaves@[i]);
        }
        assert(cap@ =~= leaf_digests::<F, H>(leaves@));
    }
    cap
}

/// The `num_digests` digests and the `len_cap` entries of the cap of the tree over `leaves`. A
/// tree without digests is all cap, of however many leaves; any other has a power of two of them
/// and a cap of height `cap_height`.
pub fn fill_digests_buf<F: RichField, H: Hasher<F>>(
    num_digests: usize,
    len_cap: usize,
    leaves: &[Vec<F>],
    cap_height: usize,
) -> (r: (Vec<H::Hash>, Vec<H::Hash>))
    requires
        num_digests == 0 ==> len_cap == leaves@.len(),
        num_digests > 0 ==> {
            &&& is_two_power(leaves@.len())
            &&& cap_height <= log2(leaves@.len())
            &&& len_cap == pow2(cap_height as nat)
            &&& num_digests == 2 * (leaves@.len() - len_cap)
        },
    ensures
        r.0@.len() == num_digests,
        r.1@.len() == len_cap,
        num_digests == 0 ==> r.1@ == leaf_digests::<F, H>(leaves@),
        num_digests > 0 ==> {
            &&& r.0@ == forest_layout(
                tree_nodes::<F, H>(leaf_digests::<F, H>(leaves@)),
                (log2(leaves@.len()) - cap_height) as nat,
                pow2(cap_height as nat),
            )
            &&& r.1@ == tree_layer::<F, H>(
                leaf_digests::<F, H>(leaves@),
                (log2(leaves@.len()) - cap_height) as nat,
                pow2(cap_height as nat),
            )
        },
{
    if num_digests == 0 {
        let digests: Vec<H::Hash> = Vec::new();
        return (digests, hash_leaves::<F, H>(leaves));
    }
    let num_leaves: usize = leaves.len();
    let ghost base = leaf_digests::<F, H>(leaves@);
    let ghost depth = log2(leaves@.len());
    let ghost height = (depth - cap_height) as nat;
    proof {
        lemma2_to64();
        crate::util::lemma_exponent_fits(depth);
        lemma_pow2_adds(height, cap_height as nat);
        lemma_pow2_pos(height);
        lemma_pow2_pos(cap_height as nat);
        vstd::arithmetic::div_mod::lemma_div_by_multiple(
            pow2(height) as int,
            pow2(cap_height as nat) as int,
        );
        vstd::arithmetic::div_mod::lemma_div_multiples_vanish(
            pow2(cap_height as nat) as int,
            pow2(height) as int,
        );
        crate::util::lemma_log2(height);
    }
    let subtree_leaves_len: usize = shift_right(num_leaves, cap_height);
    assert(subtree_leaves_len == pow2(height));
    assert(leaves@.len() as int / subtree_leaves_len as int == pow2(cap_height as nat));
    // There are `1 << cap_height` sub-trees, one for each entry in the cap. They are totally
    // independent, so each one is a task of its own.
    let fill = |subtree_leaves: &[Vec<F>]| -> (o: (H::Hash, Vec<H::Hash>))
        requires
            is_two_power(subtree_leaves@.len()),
        ensures
            o.0 == tree_node::<F, H>(
                leaf_digests::<F, H>(subtree_leaves@),
                log2(subtree_leaves@.len()),
                0,
            ),
            o.1@ == subtree_layout(
                tree_nodes::<F, H>(leaf_digests::<F, H>(subtree_leaves@)),
                log2(subtree_leaves@.len()),
                0,
            ),
        {
            fill_subtree::<F, H>(subtree_leaves)
        };
    proof {
        assert forall|chunk: &[Vec<F>], i: int|
            0 <= i < leaves@.len() as int / subtree_leaves_len as int && chunk@
                == #[trigger] parallel::chunk_at(
                leaves@,
                subtree_leaves_len as int,
                i,
            ) implies #[trigger] fill.requires((chunk,)) by {
            lemma_chunk_bounds(leaves@.len(), height, cap_height as nat, i);
        }
    }
    let mut subtrees: Vec<(H::Hash, Vec<H::Hash>)> = parallel::map_chunks_exact(
        leaves,
        subtree_leaves_len,
        fill,
    );
    proof {
        assert forall|i: int| 0 <= i < subtrees@.len() implies (#[trigger] subtrees@[i]).0
            == tree_node::<F, H>(base, height, i) && subtrees@[i].1@ == subtree_layout(
            tree_nodes::<F, H>(base),
            height,
            i,
        ) by {
            lemma_chunk_bounds(leaves@.len(), height, cap_height as nat, i);
            let chunk = choose|chunk: &[Vec<F>]|
                chunk@ == parallel::chunk_at(leaves@, subtree_leaves_len as int, i)
                    && fill.ensures((chunk,), subtrees@[i]);
            let size = subtree_leaves_len as int;
            lemma2_to64();
            assert(leaf_digests::<F, H>(chunk@) =~= base.subrange(i * size, (i + 1) * size));
            crate::tree_model::lemma_window_node::<F, H>(base, height, i, height, 0);
            crate::tree_model::lemma_window_layout::<F, H>(base, height, i, height, 0);
            assert(i * pow2(0) + 0 == i) by (nonlinear_arith)
                requires
                    pow2(0) == 1,
            ;
        }
    }
    let mut digests: Vec<H::Hash> = Vec::new();
    let mut cap: Vec<H::Hash> = Vec::new();
    let mut i: usize = 0;
    while i < subtrees.len()
        invariant
            i <= subtrees@.len(),
            subtrees@.len() == pow2(cap_height as nat),
            forall|j: int|
                i <= j < subtrees@.len() ==> (#[trigger] subtrees@[j]).0 == tree_node::<F, H>(
                    base,
                    height,
                    j,
                ) && subtrees@[j].1@ == subtree_layout(tree_nodes::<F, H>(base), height, j),
            digests@ == forest_layout(tree_nodes::<F, H>(base), height, i as nat),
            cap@ == tree_layer::<F, H>(base, height, i as nat),
        decreases subtrees@.len() - i,
    {
        let mut subtree_digests: Vec<H::Hash> = Vec::new();
        std::mem::swap(&mut subtree_digests, &mut subtrees[i].1);
        cap.push(subtrees[i].0);
        digests.append(&mut subtree_digests);
        i = i + 1;
        assert(cap@ =~= tree_layer::<F, H>(base, height, i as nat));
    }
    proof {
        lemma_digest_count(tree_nodes::<F, H>(base), height, cap_height as nat);
    }
    (digests, cap)
}

/// A forest over a power of two of leaves has twice as many digests as there are leaves beyond
/// one for each of its subtrees.
proof fn lemma_digest_count<T>(nodes: spec_fn(nat, int) -> T, height: nat, cap_height: nat)
    ensures
        forest_layout(nodes, height, pow2(cap_height)).len() == 2 * (pow2(height + cap_height)
            - pow2(cap_height)),
{
    lemma_pow2_adds(height, cap_height);
    lemma_pow2_pos(height);
    crate::tree_model::lemma_forest_len(nodes, height, pow2(cap_height));
    let size = pow2(height) as int;
    let count = pow2(cap_height) as int;
    assert(count * (2 * (size - 1)) == 2 * (size * count - count)) by (nonlinear_arith);
}

/// The runs of `2 ** height` leaves lie within the leaves.
proof fn lemma_chunk_bounds(len: nat, height: nat, cap_height: nat, i: int)
    requires
        len == pow2(height) * pow2(cap_height),
        0 <= i < pow2(cap_height),
    ensures
        0 <= i * pow2(height),
        (i + 1) * pow2(height) == i * pow2(height) + pow2(height),
        (i + 1) * pow2(height) <= len,
{
    let size = pow2(height) as int;
    let count = pow2(cap_height) as int;
    assert(0 <= i * size && (i + 1) * size == i * size + size && (i + 1) * size <= size * count)
        by (nonlinear_arith)
        requires
            0 <= i,
            i + 1 <= count,
            0 <= size,
    ;
}

/// The place in `digests` of the sibling, in layer `layer`, of the ancestor of the leaf
/// `leaf_index`, in a tree with `layers` layers below the cap and `tree_len` digests for each
/// element of the cap.
pub open spec fn sibling_place(tree_len: nat, leaf_index: nat, layers: nat, layer: nat) -> int {
    let within = leaf_index % pow2(layers);
    tree_len * (leaf_index / pow2(layers)) + slot(
        layer,
        (within / pow2(layer + 1)) as int,
        1 - (within / pow2(layer)) % 2,
    )
}

/// Sibling digests lie within the digests of their subtree.
pub proof fn lemma_sibling_slot(within: nat, layers: nat, layer: nat)
    requires
        within < pow2(layers),
        layer < layers,
    ensures
        within / pow2(layer + 1) < pow2((layers - 1 - layer) as nat),
        (within / pow2(layer)) / 2 == within / pow2(layer + 1),
        0 <= slot(
            layer,
            (within / pow2(layer + 1)) as int,
            1 - (within / pow2(layer)) % 2,
        ) < subtree_len(layers),
{
    let e = (layers - 1 - layer) as nat;
    lemma2_to64();
    crate::util::lemma_div_pow2_twice(within, layer, 1);
    lemma_pow2_adds(layer + 1, e);
    assert((layer + 1) + e == layers);
    lemma_pow2_pos(layer + 1);
    vstd::arithmetic::div_mod::lemma_multiply_divide_lt(
        within as int,
        pow2(layer + 1) as int,
        pow2(e) as int,
    );
    crate::tree_model::lemma_slot::<int>(
        |l: nat, i: int| 0,
        layers,
        0,
        layer,
        (within / pow2(layer + 1)) as int,
        1 - (within / pow2(layer)) % 2,
    );
}

/// Where the digests below the element of the cap over a leaf lie.
pub proof fn lemma_openable<F: RichField, H: Hasher<F>>(tree: MerkleTree<F, H>, leaf_index: nat)
    requires
        tree.openable(),
        leaf_index < tree.leaves@.len(),
    ensures
        log2(tree.cap.0@.len()) <= log2(tree.leaves@.len()),
        tree.leaves@.len() == pow2(tree.layers_to_cap()) * tree.cap.0@.len(),
        leaf_index / pow2(tree.layers_to_cap()) < tree.cap.0@.len(),
        0 <= tree.tree_len() * (leaf_index / pow2(tree.layers_to_cap())),
        tree.tree_len() * (leaf_index / pow2(tree.layers_to_cap()) + 1) == tree.tree_len() * (
        leaf_index / pow2(tree.layers_to_cap())) + tree.tree_len(),
        tree.tree_len() * (leaf_index / pow2(tree.layers_to_cap()) + 1) <= tree.digests@.len(),
{
    let depth = log2(tree.leaves@.len());
    let cap_height = log2(tree.cap.0@.len());
    if depth < cap_height {
        lemma_pow2_strictly_increases(depth, cap_height);
    }
    let layers = tree.layers_to_cap();
    let count = pow2(cap_height) as int;
    let size = pow2(layers) as int;
    lemma_pow2_adds(layers, cap_height);
    lemma_pow2_pos(layers);
    lemma_pow2_pos(cap_height);
    vstd::arithmetic::div_mod::lemma_multiply_divide_lt(leaf_index as int, size, count);
    vstd::arithmetic::div_mod::lemma_fundamental_div_mod(tree.digests@.len() as int, count);
    let n = tree.tree_len() as int;
    let place = (leaf_index / pow2(layers)) as int;
    assert(0 <= n * place && n * (place + 1) == n * place + n && n * (place + 1) <= count * n)
        by (nonlinear_arith)
        requires
            0 <= n,
            0 <= place,
            place + 1 <= count,
    ;
}

/// The digests of a well-shaped tree split evenly over the cap.
pub proof fn lemma_shape<F: RichField, H: Hasher<F>>(tree: MerkleTree<F, H>)
    requires
        tree.well_shaped(),
    ensures
        tree.openable(),
        tree.tree_len() == subtree_len(tree.layers_to_cap()),
        tree.digests@.len() == subtree_len(tree.layers_to_cap()) * tree.cap.0@.len(),
{
    let depth = log2(tree.leaves@.len());
    let cap_height = log2(tree.cap.0@.len());
    if depth < cap_height {
        lemma_pow2_strictly_increases(depth, cap_height);
    }
    let layers = tree.layers_to_cap();
    let count = pow2(cap_height) as int;
    let size = pow2(layers) as int;
    lemma_pow2_adds(layers, cap_height);
    lemma_pow2_pos(layers);
    lemma_pow2_pos(cap_height);
    assert(2 * (size * count - count) == (2 * (size - 1)) * count) by (nonlinear_arith);
    vstd::arithmetic::div_mod::lemma_div_by_multiple(subtree_len(layers) as int, count);
}

impl<F: RichField, H: Hasher<F>> MerkleTree<F, H> {
    /// Builds the tree on the CPU.
    pub fn build_cpu(leaves: Vec<Vec<F>>, cap_height: usize) -> (r: Self)
        requires
            is_two_power(leaves@.len()),
            cap_height <= log2(leaves@.len()),
        ensures
            r.is_tree_of(leaves@, cap_height as nat),
    {
        let ghost depth = log2(leaves@.len());
        let ghost height = (depth - cap_height) as nat;
        let ghost base = leaf_digests::<F, H>(leaves@);
        let num_leaves: usize = leaves.len();
        proof {
            crate::util::lemma_exponent_fits(depth);
            crate::util::lemma_pow2_monotone(cap_height as nat, depth);
        }
        let len_cap: usize = two_power(cap_height);
        let num_digests: usize = 2 * (num_leaves - len_cap);
        let (digests, cap) = fill_digests_buf::<F, H>(
            num_digests,
            len_cap,
            leaves.as_slice(),
            cap_height,
        );
        proof {
            crate::util::lemma_log2(cap_height as nat);
            lemma_digest_count(tree_nodes::<F, H>(base), height, cap_height as nat);
            if num_digests == 0 {
                assert(height == 0);
                assert(digests@ =~= forest_layout(
                    tree_nodes::<F, H>(base),
                    height,
                    pow2(cap_height as nat),
                ));
                assert(cap@ =~= tree_layer::<F, H>(base, height, pow2(cap_height as nat)));
            }
        }
        MerkleTree { leaves, digests, cap: MerkleCap(cap) }
    }

    /// The tree over `leaves` with a cap of height `cap_height`.
    pub fn new(leaves: Vec<Vec<F>>, cap_height: usize) -> (r: Self)
        requires
            is_two_power(leaves@.len()),
            cap_height <= log2(leaves@.len()),
        ensures
            r.is_tree_of(leaves@, cap_height as nat),
    {
        Self::build_cpu(leaves, cap_height)
    }

    /// The data of leaf `i`.
    pub fn get(&self, i: usize) -> (r: &[F])
        requires
            i < self.leaves@.len(),
        ensures
            r@ == self.leaves@[i as int]@,
    {
        self.leaves[i].as_slice()
    }

    /// Create a Merkle proof from a leaf index.
    pub fn prove(&self, leaf_index: usize) -> (r: MerkleProof<F, H>)
        requires
            self.openable(),
            leaf_index < self.leaves@.len(),
        ensures
            r.siblings@ == self.opening(leaf_index as nat),
    {
        let ghost layers = self.layers_to_cap();
        proof {
            lemma_openable(*self, leaf_index as nat);
        }
        let cap_height: usize = log2_strict(self.cap.len());
        let num_layers: usize = log2_strict(self.leaves.len()) - cap_height;
        let tree_index: usize = shift_right(leaf_index, num_layers);
        let tree_len: usize = shift_right(self.digests.len(), cap_height);
        let digest_tree: &[H::Hash] = vstd::slice::slice_subrange(
            self.digests.as_slice(),
            tree_len * tree_index,
            tree_len * (tree_index + 1),
        );

        // Mask out high bits to get the index within the sub-tree.
        let ghost within = leaf_index as nat % pow2(layers);
        proof {
            lemma_pow2_pos(layers);
            vstd::bits::lemma_usize_low_bits_mask_is_mod(leaf_index, layers);
            crate::util::lemma_pow2_monotone(layers, log2(self.leaves@.len()));
        }
        let mut pair_index: usize = leaf_index & (two_power(num_layers) - 1);
        let mut siblings: Vec<H::Hash> = Vec::with_capacity(num_layers);
        proof {
            lemma2_to64();
            assert(within / 1 == within);
        }
        let mut i: usize = 0;
        while i < num_layers
            invariant
                i <= num_layers,
                num_layers == layers,
                num_layers < usize::BITS,
                within < pow2(layers),
                pair_index == within / pow2(i as nat),
                digest_tree@.len() == tree_len,
                subtree_len(layers) <= tree_len,
                within == leaf_index as nat % pow2(layers),
                tree_len == self.tree_len(),
                tree_index == leaf_index as nat / pow2(layers),
                digest_tree@ == self.digests@.subrange(
                    tree_len * tree_index,
                    tree_len * (tree_index + 1),
                ),
                0 <= tree_len * tree_index,
                tree_len * (tree_index + 1) == tree_len * tree_index + tree_len,
                tree_len * (tree_index + 1) <= self.digests@.len(),
                siblings@ == Seq::new(
                    i as nat,
                    |j: int| self.digests@[sibling_place(
                        tree_len as nat,
                        leaf_index as nat,
                        layers,
                        j as nat,
                    )],
                ),
            decreases num_layers - i,
        {
            let parity: usize = pair_index & 1;
            let ghost layer_index = pair_index;
            pair_index = pair_index >> 1;
            proof {
                assert(layer_index & 1 == layer_index % 2) by (bit_vector);
                assert(layer_index >> 1 == layer_index / 2) by (bit_vector);
                lemma_sibling_slot(within, layers, i as nat);
                let unit = pow2(i as nat);
                lemma_pow2_unfold(i as nat + 1);
                lemma_pow2_pos(i as nat);
                crate::util::lemma_pow2_monotone(i as nat + 1, layers);
                assert(pair_index * pow2(i as nat + 1) >= 0) by (nonlinear_arith);
                vstd::bits::lemma_usize_shl_is_mul(pair_index, (i + 1) as usize);
            }
            // The layers' data is interleaved as follows:
            // [layer 0, layer 1, layer 0, layer 2, layer 0, layer 1, layer 0, layer 3, ...].
            // Each of the above is a pair of siblings.
            // `pair_index` is the index of the pair within layer `i`.
            // The index of that the pair within `digests` is
            // `pair_index * 2 ** (i + 1) + (2 ** i - 1)`.
            let siblings_index: usize = (pair_index << (i + 1)) + (two_power(i) - 1);
            // We have an index for the _pair_, but we want the index of the _sibling_.
            // Double the pair index to get the index of the left sibling. Conditionally add `1`
            // if we are to retrieve the right sibling.
            let sibling_index: usize = 2 * siblings_index + (1 - parity);
            siblings.push(digest_tree[sibling_index]);
            i = i + 1;
            assert(siblings@ =~= Seq::new(
                i as nat,
                |j: int| self.digests@[sibling_place(
                        tree_len as nat,
                        leaf_index as nat,
                        layers,
                        j as nat,
                    )],
            ));
        }
        MerkleProof { siblings }
    }
}

// ---------------------------------------------------------------------------------------------
// The GPU path
// ---------------------------------------------------------------------------------------------

/// The number of leaves up to which trees are built on the CPU.
pub const CPU_LEAF_COUNT: usize = 4096;

/// Whether a tree goes to the GPU: it has more leaves than the CPU takes, and layers below its
/// cap.
pub open spec fn goes_to_gpu(leaf_count: nat, cap_height: nat) -> bool {
    leaf_count > CPU_LEAF_COUNT && cap_height < log2(leaf_count)
}

/// Whether a tree goes to the GPU.
pub fn tries_gpu(leaf_count: usize, cap_height: usize) -> (r: bool)
    requires
        is_two_power(leaf_count as nat),
    ensures
        r == goes_to_gpu(leaf_count as nat, cap_height as nat),
        r <==> leaf_count > 4096 && pow2(cap_height as nat) < leaf_count,
{
    proof {
        crate::laws::law_large_trees_go_to_the_gpu(leaf_count as nat, cap_height as nat);
    }
    if leaf_count == CPU_LEAF_COUNT {
        return false;
    }
    let log2_leaves: usize = log2_strict(leaf_count);
    if cap_height >= log2_leaves {
        return false;
    }
    if leaf_count < CPU_LEAF_COUNT {
        return false;
    }
    true
}

/// What came of building a tree on the GPU.
#[derive(Debug)]
pub enum GpuAttempt<T> {
    /// There is no context to build it in.
    NoContext,
    /// The tree was not taken, or the work could not be submitted.
    Unavailable,
    /// The work was submitted and failed.
    Failed,
    /// The work was done, with these digests and this cap.
    Finished { digests: Vec<T>, cap: Vec<T> },
}

impl<F: RichField> GpuMerkleOutput<F> {
    /// The attempt that ended in this output.
    pub fn into_attempt(self) -> (r: GpuAttempt<HashOut<F>>)
        ensures
            r == (GpuAttempt::Finished { digests: self.digests, cap: self.cap }),
    {
        GpuAttempt::Finished { digests: self.digests, cap: self.cap }
    }
}

impl<F: RichField, H: Hasher<F, Hash = HashOut<F>>> MerkleTree<F, H> {
    /// The tree with the digests and the cap that the GPU computed.
    pub fn from_gpu_output(leaves: Vec<Vec<F>>, output: GpuMerkleOutput<F>) -> (r: Self)
        ensures
            r.leaves@ == leaves@,
            r.digests@ == output.digests@,
            r.cap.0@ == output.cap@,
    {
        let GpuMerkleOutput { digests, cap } = output;
        MerkleTree { leaves, digests, cap: MerkleCap(cap) }
    }
}

impl<F: RichField, H: Hasher<F>> MerkleTree<F, H> {
    /// The tree over `leaves` with what came of building it on the GPU: the digests and the cap
    /// of a finished attempt where the tree goes to the GPU, and the CPU's tree otherwise.
    pub open spec fn is_gpu_build_of(
        self,
        leaves: Seq<Vec<F>>,
        cap_height: nat,
        attempt: GpuAttempt<H::Hash>,
    ) -> bool {
        if goes_to_gpu(leaves.len(), cap_height) && attempt is Finished {
            &&& self.leaves@ == leaves
            &&& self.digests@ == attempt->digests@
            &&& self.cap.0@ == attempt->cap@
        } else {
            self.is_tree_of(leaves, cap_height)
        }
    }

    /// The tree over `leaves`, with what came of building it on the GPU: the digests and the cap
    /// where the work was done, and the CPU's tree wherever the GPU did not build it. `attempt`
    /// counts only for the trees that go to the GPU.
    pub fn build_gpu(
        leaves: Vec<Vec<F>>,
        cap_height: usize,
        attempt: GpuAttempt<H::Hash>,
    ) -> (r: Self)
        requires
            is_two_power(leaves@.len()),
            cap_height <= log2(leaves@.len()),
        ensures
            r.is_gpu_build_of(leaves@, cap_height as nat, attempt),
    {
        if !tries_gpu(leaves.len(), cap_height) {
            return Self::build_cpu(leaves, cap_height);
        }
        match attempt {
            GpuAttempt::Finished { digests, cap } => MerkleTree {
                leaves,
                digests,
                cap: MerkleCap(cap),
            },
            GpuAttempt::NoContext => Self::build_cpu(leaves, cap_height),
            GpuAttempt::Unavailable => Self::build_cpu(leaves, cap_height),
            GpuAttempt::Failed => Self::build_cpu(leaves, cap_height),
        }
    }
}

} // verus!
