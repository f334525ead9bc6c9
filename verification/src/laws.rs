//! What holds of the trees as a whole.

use crate::field::RichField;
use crate::gpu_laws::law_forest_slots;
use crate::hash_types::Hasher;
use crate::merkle_proofs::path_digest;
use crate::merkle_tree::{
    goes_to_gpu, lemma_openable, lemma_shape, lemma_sibling_slot, sibling_place, GpuAttempt,
    MerkleTree,
};
use crate::tree_model::{
    forest_layout, leaf_digests, lemma_forest_subtree, lemma_slot, lemma_window_layout,
    lemma_window_node, slot, subtree_layout, subtree_len, tree_layer, tree_node, tree_nodes,
};
use crate::util::{is_two_power, lemma_div_pow2_twice, lemma_log2, log2};
use vstd::arithmetic::div_mod::*;
use vstd::arithmetic::power2::*;
use vstd::prelude::*;

verus! {

/// The neighbour that shares a parent with the node `index` of a layer.
pub open spec fn sibling_of(index: int) -> int {
    if index % 2 == 0 {
        index + 1
    } else {
        index - 1
    }
}

/// The index of an ancestor, split into the subtree and the place within it.
proof fn lemma_split_index(leaf_index: nat, layers: nat, layer: nat)
    requires
        layer < layers,
    ensures
        leaf_index / pow2(layer + 1) == (leaf_index / pow2(layers)) * pow2(
            (layers - 1 - layer) as nat,
        ) + (leaf_index % pow2(layers)) / pow2(layer + 1),
        (leaf_index / pow2(layer)) % 2 == ((leaf_index % pow2(layers)) / pow2(layer)) % 2,
        (leaf_index / pow2(layer)) / 2 == leaf_index / pow2(layer + 1),
{
    let e = (layers - 1 - layer) as nat;
    let place = (leaf_index / pow2(layers)) as int;
    let within = (leaf_index % pow2(layers)) as int;
    let unit = pow2(layer) as int;
    let width = pow2(e) as int;
    lemma2_to64();
    lemma_pow2_pos(layers);
    lemma_pow2_pos(layer);
    lemma_pow2_pos(layer + 1);
    lemma_pow2_unfold(layer + 1);
    lemma_pow2_adds(layer + 1, e);
    assert((layer + 1) + e == layers);
    lemma_fundamental_div_mod(leaf_index as int, pow2(layers) as int);
    lemma_div_pow2_twice(leaf_index, layer, 1);
    assert(pow2(layers) * place == (place * width) * (2 * unit) && pow2(layers) * place == (2 * (
    place * width)) * unit) by (nonlinear_arith)
        requires
            pow2(layers) == (2 * unit) * width,
    ;
    lemma_hoist_over_denominator(within, place * width, (2 * unit) as nat);
    lemma_hoist_over_denominator(within, 2 * (place * width), unit as nat);
}

/// In a consistent tree, the opening of a leaf holds, for each layer below the cap, the sibling
/// of the leaf's ancestor in that layer.
pub proof fn law_opening_holds_siblings<F: RichField, H: Hasher<F>>(
    tree: MerkleTree<F, H>,
    leaf_index: nat,
    layer: nat,
)
    requires
        tree.consistent(),
        leaf_index < tree.leaves@.len(),
        layer < tree.layers_to_cap(),
    ensures
        tree.opening(leaf_index)[layer as int] == tree_node::<F, H>(
            tree.base(),
            layer,
            sibling_of((leaf_index / pow2(layer)) as int),
        ),
{
    let layers = tree.layers_to_cap();
    let nodes = tree_nodes::<F, H>(tree.base());
    let place = (leaf_index / pow2(layers)) as int;
    let within = leaf_index % pow2(layers);
    let pair = (within / pow2(layer + 1)) as int;
    let side = 1 - (within / pow2(layer)) % 2;
    lemma_shape(tree);
    lemma_openable(tree, leaf_index);
    lemma_pow2_pos(layers);
    lemma_pow2_pos(layer + 1);
    lemma_sibling_slot(within, layers, layer);
    lemma_forest_subtree(nodes, layers, tree.cap.0@.len(), place);
    lemma_slot(nodes, layers, place, layer, pair, side);
    lemma_split_index(leaf_index, layers, layer);
    let n = subtree_len(layers) as int;
    assert(place * n == n * place && (place + 1) * n == n * (place + 1)) by (nonlinear_arith);
    let part = tree.digests@.subrange(place * n, (place + 1) * n);
    assert(part[slot(layer, pair, side)] == tree.digests@[sibling_place(
        tree.tree_len(),
        leaf_index,
        layers,
        layer,
    )]);
}

/// Following the first `steps` siblings of an opening leads to the leaf's ancestor in layer
/// `steps`.
proof fn lemma_path_prefix<F: RichField, H: Hasher<F>>(
    tree: MerkleTree<F, H>,
    leaf_index: nat,
    steps: nat,
)
    requires
        tree.consistent(),
        leaf_index < tree.leaves@.len(),
        steps <= tree.layers_to_cap(),
    ensures
        path_digest::<F, H>(
            H::leaf_digest(tree.leaves@[leaf_index as int]@),
            leaf_index,
            tree.opening(leaf_index).take(steps as int),
        ) == tree_node::<F, H>(tree.base(), steps, (leaf_index / pow2(steps)) as int),
    decreases steps,
{
    let start = H::leaf_digest(tree.leaves@[leaf_index as int]@);
    let opening = tree.opening(leaf_index);
    lemma2_to64();
    if steps == 0 {
        assert(leaf_index / 1 == leaf_index);
    } else {
        let below = (steps - 1) as nat;
        lemma_path_prefix(tree, leaf_index, below);
        law_opening_holds_siblings(tree, leaf_index, below);
        lemma_div_pow2_twice(leaf_index, below, 1);
        assert(opening.take(steps as int).drop_last() =~= opening.take(below as int));
    }
}

/// Every leaf of a consistent tree verifies against the cap with the tree's own opening of it.
pub proof fn law_openings_verify<F: RichField, H: Hasher<F>>(
    tree: MerkleTree<F, H>,
    leaf_index: nat,
)
    requires
        tree.consistent(),
        leaf_index < tree.leaves@.len(),
    ensures
        leaf_index / pow2(tree.opening(leaf_index).len()) < tree.cap.0@.len(),
        path_digest::<F, H>(
            H::leaf_digest(tree.leaves@[leaf_index as int]@),
            leaf_index,
            tree.opening(leaf_index),
        ) == tree.cap.0@[(leaf_index / pow2(tree.opening(leaf_index).len())) as int],
{
    lemma_shape(tree);
    lemma_openable(tree, leaf_index);
    lemma_path_prefix(tree, leaf_index, tree.layers_to_cap());
    assert(tree.opening(leaf_index).take(tree.layers_to_cap() as int) =~= tree.opening(leaf_index));
}

/// The tree over a layer of a tree is the upper part of that tree.
pub proof fn law_layers_compose<F: RichField, H: Hasher<F>>(
    base: Seq<H::Hash>,
    lower: nat,
    upper: nat,
    count: nat,
    index: int,
)
    requires
        0 <= index,
        (index + 1) * pow2(upper) <= count,
    ensures
        tree_node::<F, H>(tree_layer::<F, H>(base, lower, count), upper, index) == tree_node::<
            F,
            H,
        >(base, lower + upper, index),
    decreases upper,
{
    lemma2_to64();
    if upper > 0 {
        lemma_pow2_unfold(upper);
        let half = pow2((upper - 1) as nat) as int;
        assert((2 * index + 1) * half <= (index + 1) * (2 * half) && (2 * index + 1 + 1) * half
            <= (index + 1) * (2 * half)) by (nonlinear_arith)
            requires
                0 <= half,
        ;
        law_layers_compose::<F, H>(base, lower, (upper - 1) as nat, count, 2 * index);
        law_layers_compose::<F, H>(base, lower, (upper - 1) as nat, count, 2 * index + 1);
    } else {
        assert((index + 1) * pow2(0) == index + 1) by (nonlinear_arith)
            requires
                pow2(0) == 1,
        ;
    }
}

/// Two trees over the same leaves: hashing the cap of the greater height up yields the other
/// cap. In particular the cap of height zero is the root over any other cap.
pub proof fn law_caps_are_layers<F: RichField, H: Hasher<F>>(
    short: MerkleTree<F, H>,
    tall: MerkleTree<F, H>,
    leaves: Seq<Vec<F>>,
    short_height: nat,
    tall_height: nat,
    index: int,
)
    requires
        short.is_tree_of(leaves, short_height),
        tall.is_tree_of(leaves, tall_height),
        short_height <= tall_height,
        0 <= index < pow2(short_height),
    ensures
        tree_node::<F, H>(tall.cap.0@, (tall_height - short_height) as nat, index)
            == short.cap.0@[index],
{
    let gap = (tall_height - short_height) as nat;
    lemma_log2(short_height);
    lemma_log2(tall_height);
    lemma_shape(tall);
    lemma_pow2_pos(log2(leaves.len()));
    lemma_openable(tall, 0);
    lemma_pow2_adds(short_height, gap);
    let width = pow2(gap) as int;
    let count = pow2(short_height) as int;
    assert((index + 1) * width <= count * width) by (nonlinear_arith)
        requires
            index + 1 <= count,
            0 <= width,
    ;
    law_layers_compose::<F, H>(
        leaf_digests::<F, H>(leaves),
        tall.layers_to_cap(),
        gap,
        pow2(tall_height),
        index,
    );
}

/// Raising the cap by some layers takes that many siblings off the end of every opening and
/// leaves the others as they are.
pub proof fn law_taller_caps_shorten_openings<F: RichField, H: Hasher<F>>(
    short: MerkleTree<F, H>,
    tall: MerkleTree<F, H>,
    leaves: Seq<Vec<F>>,
    short_height: nat,
    tall_height: nat,
    leaf_index: nat,
)
    requires
        short.is_tree_of(leaves, short_height),
        tall.is_tree_of(leaves, tall_height),
        short_height <= tall_height,
        leaf_index < leaves.len(),
    ensures
        short.opening(leaf_index).len() == log2(leaves.len()) - short_height,
        tall.opening(leaf_index).len() == log2(leaves.len()) - tall_height,
        tall.opening(leaf_index) == short.opening(leaf_index).take(
            log2(leaves.len()) - tall_height,
        ),
{
    lemma_log2(short_height);
    lemma_log2(tall_height);
    lemma_shape(short);
    lemma_openable(short, leaf_index);
    lemma_shape(tall);
    lemma_openable(tall, leaf_index);
    let one = tall.opening(leaf_index);
    let two = short.opening(leaf_index).take(log2(leaves.len()) - tall_height);
    assert forall|i: int| 0 <= i < one.len() implies one[i] == #[trigger] two[i] by {
        law_opening_holds_siblings(short, leaf_index, i as nat);
        law_opening_holds_siblings(tall, leaf_index, i as nat);
    }
    assert(one =~= two);
}

/// The digests below the `i`-th element of the cap are contiguous: they are
/// `digests[digests.len() / cap.len() * i..digests.len() / cap.len() * (i + 1)]`, laid out as a
/// subtree.
pub proof fn law_subtrees_are_contiguous<F: RichField, H: Hasher<F>>(
    tree: MerkleTree<F, H>,
    i: int,
)
    requires
        tree.consistent(),
        0 <= i < tree.cap.0@.len(),
    ensures
        ({
            let step = tree.digests@.len() as int / tree.cap.0@.len() as int;
            &&& 0 <= step * i <= step * (i + 1) <= tree.digests@.len()
            &&& tree.digests@.subrange(step * i, step * (i + 1)) == subtree_layout(
                tree_nodes::<F, H>(tree.base()),
                tree.layers_to_cap(),
                i,
            )
        }),
{
    let layers = tree.layers_to_cap();
    let n = subtree_len(layers) as int;
    lemma_pow2_pos(log2(tree.leaves@.len()));
    lemma_shape(tree);
    lemma_div_by_multiple(n, tree.cap.0@.len() as int);
    lemma_forest_subtree(tree_nodes::<F, H>(tree.base()), layers, tree.cap.0@.len(), i);
    assert(n * i == i * n && n * (i + 1) == (i + 1) * n && n * i <= n * (i + 1))
        by (nonlinear_arith)
        requires
            0 <= n,
    ;
}

/// Leaves and cap height determine the tree.
pub proof fn law_trees_are_determined<F: RichField, H: Hasher<F>>(
    one: MerkleTree<F, H>,
    two: MerkleTree<F, H>,
    leaves: Seq<Vec<F>>,
    cap_height: nat,
)
    requires
        one.is_tree_of(leaves, cap_height),
        two.is_tree_of(leaves, cap_height),
    ensures
        one.leaves@ == two.leaves@,
        one.digests@ == two.digests@,
        one.cap.0@ == two.cap.0@,
{
}

/// Subtrees of a window of the base, `place` windows of `count` subtrees in, are subtrees of the
/// whole.
proof fn lemma_forest_window<F: RichField, H: Hasher<F>>(
    base: Seq<H::Hash>,
    cap_height: nat,
    layers: nat,
    place: int,
    count: nat,
)
    requires
        0 <= place,
        (place + 1) * pow2(cap_height + layers) <= base.len(),
        count <= pow2(cap_height),
    ensures
        ({
            let size = pow2(cap_height + layers);
            let window = base.subrange(place * size, (place + 1) * size);
            forest_layout(tree_nodes::<F, H>(base), layers, (place * pow2(cap_height)) as nat)
                + forest_layout(tree_nodes::<F, H>(window), layers, count) == forest_layout(
                tree_nodes::<F, H>(base),
                layers,
                (place * pow2(cap_height) + count) as nat,
            )
        }),
    decreases count,
{
    let size = pow2(cap_height + layers);
    let window = base.subrange(place * size, (place + 1) * size);
    let first = place * pow2(cap_height);
    let nodes = tree_nodes::<F, H>(base);
    let within = tree_nodes::<F, H>(window);
    assert(0 <= first) by (nonlinear_arith)
        requires
            0 <= place,
            first == place * pow2(cap_height),
    ;
    let front = forest_layout(nodes, layers, first as nat);
    if count == 0 {
        assert(front + forest_layout(within, layers, 0) =~= front);
    } else {
        let last = (count - 1) as nat;
        lemma_forest_window::<F, H>(base, cap_height, layers, place, last);
        assert(cap_height + layers - layers == cap_height);
        lemma_window_layout::<F, H>(base, cap_height + layers, place, layers, last as int);
        assert(front + forest_layout(within, layers, count) =~= (front + forest_layout(
            within,
            layers,
            last,
        )) + subtree_layout(within, layers, last as int));
    }
}

/// Two trees of the same size next to each other are one tree whose cap is one layer taller: it
/// has their caps and their digests, one after the other.
pub proof fn law_neighbours_form_a_tree<F: RichField, H: Hasher<F>>(
    left: MerkleTree<F, H>,
    right: MerkleTree<F, H>,
    both: MerkleTree<F, H>,
    left_leaves: Seq<Vec<F>>,
    right_leaves: Seq<Vec<F>>,
    cap_height: nat,
)
    requires
        left.is_tree_of(left_leaves, cap_height),
        right.is_tree_of(right_leaves, cap_height),
        both.is_tree_of(left_leaves + right_leaves, cap_height + 1),
        left_leaves.len() == right_leaves.len(),
    ensures
        both.cap.0@ == left.cap.0@ + right.cap.0@,
        both.digests@ == left.digests@ + right.digests@,
{
    let depth = log2(left_leaves.len());
    let base = leaf_digests::<F, H>(left_leaves + right_leaves);
    let size = pow2(depth) as int;
    lemma_pow2_pos(depth);
    lemma_shape(left);
    lemma_openable(left, 0);
    lemma_log2(cap_height);
    lemma_log2(cap_height + 1);
    let layers = left.layers_to_cap();
    let count = pow2(cap_height);
    lemma_pow2_unfold(depth + 1);
    lemma_log2(depth + 1);
    lemma_pow2_unfold(cap_height + 1);
    lemma_pow2_pos(cap_height);
    assert(cap_height + layers == depth);
    assert(both.layers_to_cap() == layers);
    let left_base = leaf_digests::<F, H>(left_leaves);
    let right_base = leaf_digests::<F, H>(right_leaves);
    assert(0 * size == 0 && (0 + 1) * size == size && 1 * size == size);
    assert((1 + 1) * size == 2 * size);
    assert(left_base =~= base.subrange(0 * size, (0 + 1) * size));
    assert(right_base =~= base.subrange(1 * size, (1 + 1) * size));
    assert(0 * count == 0 && 1 * count == count);

    lemma_forest_window::<F, H>(base, cap_height, layers, 0, count);
    lemma_forest_window::<F, H>(base, cap_height, layers, 1, count);
    let nodes = tree_nodes::<F, H>(base);
    assert(forest_layout(nodes, layers, 0) =~= Seq::empty());
    assert(forest_layout(nodes, layers, 0) + left.digests@ =~= left.digests@);
    assert(forest_layout(nodes, layers, count) == left.digests@);

    let joined = left.cap.0@ + right.cap.0@;
    assert forall|i: int| 0 <= i < joined.len() implies #[trigger] joined[i] == both.cap.0@[i] by {
        if i < count {
            lemma_window_node::<F, H>(base, depth, 0, layers, i);
        } else {
            lemma_window_node::<F, H>(base, depth, 1, layers, i - count);
        }
    }
    assert(both.cap.0@ =~= joined);
}

/// Two paths from the same index come together at their step `step`: the digests that they hash
/// there differ, and have the same parent.
pub open spec fn paths_collide_at<F: RichField, H: Hasher<F>>(
    one: H::Hash,
    two: H::Hash,
    index: nat,
    one_siblings: Seq<H::Hash>,
    two_siblings: Seq<H::Hash>,
    step: int,
) -> bool {
    let one_before = path_digest::<F, H>(one, index, one_siblings.take(step));
    let two_before = path_digest::<F, H>(two, index, two_siblings.take(step));
    let one_after = path_digest::<F, H>(one, index, one_siblings.take(step + 1));
    let two_after = path_digest::<F, H>(two, index, two_siblings.take(step + 1));
    &&& 0 <= step < one_siblings.len()
    &&& step < two_siblings.len()
    &&& one_before != two_before || one_siblings[step] != two_siblings[step]
    &&& one_after == two_after
}

/// Openings bind: two different paths of the same length from the same index end in the same
/// digest only where the hash function gives two different pairs of digests, found on these paths,
/// the same parent.
pub proof fn law_openings_bind<F: RichField, H: Hasher<F>>(
    one: H::Hash,
    two: H::Hash,
    index: nat,
    one_siblings: Seq<H::Hash>,
    two_siblings: Seq<H::Hash>,
)
    requires
        one_siblings.len() == two_siblings.len(),
        one != two || one_siblings != two_siblings,
        path_digest::<F, H>(one, index, one_siblings) == path_digest::<F, H>(
            two,
            index,
            two_siblings,
        ),
    ensures
        exists|step: int|
            paths_collide_at::<F, H>(one, two, index, one_siblings, two_siblings, step),
    decreases one_siblings.len(),
{
    let len = one_siblings.len();
    if len == 0 {
        assert(one_siblings =~= two_siblings);
    } else {
        let last = len - 1;
        let one_front = one_siblings.drop_last();
        let two_front = two_siblings.drop_last();
        assert(one_siblings.take(last) =~= one_front);
        assert(two_siblings.take(last) =~= two_front);
        assert(one_siblings.take(last + 1) =~= one_siblings);
        assert(two_siblings.take(last + 1) =~= two_siblings);
        if !paths_collide_at::<F, H>(one, two, index, one_siblings, two_siblings, last) {
            assert(one_siblings =~= one_front.push(one_siblings.last()));
            assert(two_siblings =~= two_front.push(two_siblings.last()));
            law_openings_bind::<F, H>(one, two, index, one_front, two_front);
            let step = choose|step: int|
                paths_collide_at::<F, H>(one, two, index, one_front, two_front, step);
            assert(one_front.take(step) =~= one_siblings.take(step));
            assert(two_front.take(step) =~= two_siblings.take(step));
            assert(one_front.take(step + 1) =~= one_siblings.take(step + 1));
            assert(two_front.take(step + 1) =~= two_siblings.take(step + 1));
            assert(paths_collide_at::<F, H>(one, two, index, one_siblings, two_siblings, step));
        }
    }
}

/// The nodes of a tree: the bottom layer is the digests of the leaves, and each node above it is
/// the digest of the two nodes below it, the left one first.
pub proof fn law_nodes_are_digests_of_pairs<F: RichField, H: Hasher<F>>(
    leaves: Seq<Vec<F>>,
    layer: nat,
    count: nat,
    index: int,
)
    requires
        0 <= index < leaves.len(),
        index < count,
    ensures
        leaf_digests::<F, H>(leaves).len() == leaves.len(),
        leaf_digests::<F, H>(leaves)[index] == H::leaf_digest(leaves[index]@),
        ({
            let base = leaf_digests::<F, H>(leaves);
            &&& tree_node::<F, H>(base, 0, index) == H::leaf_digest(leaves[index]@)
            &&& tree_node::<F, H>(base, layer + 1, index) == H::node_digest(
                tree_node::<F, H>(base, layer, 2 * index),
                tree_node::<F, H>(base, layer, 2 * index + 1),
            )
            &&& (tree_nodes::<F, H>(base))(layer, index) == tree_node::<F, H>(base, layer, index)
            &&& tree_layer::<F, H>(base, layer, count).len() == count
            &&& tree_layer::<F, H>(base, layer, count)[index] == tree_node::<F, H>(
                base,
                layer,
                index,
            )
        }),
{
}

/// What a tree holds, place by place. For each element `s` of the cap there are
/// `2 * (2 ** layers - 1)` digests, and among them the one of the node `j` of layer `layer` is at
/// `2 * ((j / 2) * 2 ** (layer + 1)) + 2 * (2 ** layer - 1) + j % 2`. In layer zero it is the
/// digest of a leaf, above it that of the two digests below, and the element of the cap is that of
/// the two digests at the top.
pub proof fn law_trees_by_place<F: RichField, H: Hasher<F>>(
    tree: MerkleTree<F, H>,
    leaves: Seq<Vec<F>>,
    cap_height: nat,
    layers: nat,
    s: int,
    layer: nat,
    j: int,
)
    requires
        tree.is_tree_of(leaves, cap_height),
        leaves.len() == pow2(cap_height + layers),
        0 <= s < pow2(cap_height),
    ensures
        tree.leaves@ == leaves,
        tree.cap.0@.len() == pow2(cap_height),
        tree.digests@.len() == 2 * (leaves.len() - pow2(cap_height)),
        ({
            let first = s * (2 * (pow2(layers) - 1));
            let top = first + 2 * (pow2((layers - 1) as nat) - 1);
            let at = first + 2 * ((j / 2) * pow2(layer + 1)) + 2 * (pow2(layer) - 1) + j % 2;
            let below = first + 2 * (j * pow2(layer)) + 2 * (pow2((layer - 1) as nat) - 1);
            let here = layer < layers && 0 <= j < pow2((layers - layer) as nat);
            &&& layers == 0 ==> tree.cap.0@[s] == H::leaf_digest(leaves[s]@)
            &&& layers > 0 ==> {
                &&& 0 <= top
                &&& top + 1 < tree.digests@.len()
                &&& tree.cap.0@[s] == H::node_digest(tree.digests@[top], tree.digests@[top + 1])
            }
            &&& here ==> 0 <= at < tree.digests@.len()
            &&& here && layer == 0 ==> tree.digests@[at] == H::leaf_digest(
                leaves[s * pow2(layers) + j]@,
            )
            &&& here && layer > 0 ==> {
                &&& 0 <= below
                &&& below + 1 < tree.digests@.len()
                &&& tree.digests@[at] == H::node_digest(
                    tree.digests@[below],
                    tree.digests@[below + 1],
                )
            }
        }),
{
    let base = leaf_digests::<F, H>(leaves);
    let nodes = tree_nodes::<F, H>(base);
    let count = pow2(cap_height);
    lemma2_to64();
    lemma_log2(cap_height);
    lemma_log2(cap_height + layers);
    assert(tree.layers_to_cap() == layers);
    lemma_pow2_adds(cap_height, layers);
    if layers == 0 {
        assert(tree_node::<F, H>(base, 0, s) == H::leaf_digest(leaves[s]@));
    } else {
        let under = (layers - 1) as nat;
        law_forest_slots(nodes, layers, count, s, under, 0);
        law_forest_slots(nodes, layers, count, s, under, 1);
        assert(0 * pow2(under + 1) == 0);
        assert(s * pow2(1) == 2 * s) by (nonlinear_arith)
            requires
                pow2(1) == 2,
        ;
    }
    if layer < layers && 0 <= j < pow2((layers - layer) as nat) {
        let width = pow2((layers - layer) as nat) as int;
        law_forest_slots(nodes, layers, count, s, layer, j);
        if layer > 0 {
            let under = (layer - 1) as nat;
            lemma_pow2_unfold((layers - layer + 1) as nat);
            law_forest_slots(nodes, layers, count, s, under, 2 * j);
            law_forest_slots(nodes, layers, count, s, under, 2 * j + 1);
            assert((2 * j) / 2 == j && (2 * j + 1) / 2 == j);
            assert(under + 1 == layer);
            assert(s * (2 * width) == 2 * (s * width)) by (nonlinear_arith);
        } else {
            let c = count as int;
            assert(0 <= s * width && s * width + width <= c * width) by (nonlinear_arith)
                requires
                    0 <= s,
                    s + 1 <= c,
                    0 <= width,
            ;
        }
    }
}

/// Where an opening takes its digests from: for each layer below the cap, the digest beside the
/// one of the leaf's ancestor, among the digests of the leaf's own element of the cap.
pub proof fn law_openings_by_place<F: RichField, H: Hasher<F>>(
    tree: MerkleTree<F, H>,
    leaf_index: nat,
    layers: nat,
    layer: nat,
)
    requires
        tree.openable(),
        leaf_index < tree.leaves@.len(),
        tree.leaves@.len() == tree.cap.0@.len() * pow2(layers),
    ensures
        tree.opening(leaf_index).len() == layers,
        layer < layers ==> ({
            let within = leaf_index % pow2(layers);
            let first = (tree.digests@.len() / tree.cap.0@.len()) * (leaf_index / pow2(layers));
            let at = first + 2 * ((within / pow2(layer + 1)) * pow2(layer + 1)) + 2 * (pow2(layer)
                - 1) + (1 - (within / pow2(layer)) % 2);
            &&& 0 <= at < tree.digests@.len()
            &&& tree.opening(leaf_index)[layer as int] == tree.digests@[at]
        }),
{
    let cap_height = log2(tree.cap.0@.len());
    lemma_openable(tree, leaf_index);
    lemma_pow2_adds(cap_height, layers);
    lemma_log2(cap_height + layers);
    assert(tree.layers_to_cap() == layers);
    if layer < layers {
        lemma_pow2_pos(layers);
        lemma_sibling_slot(leaf_index % pow2(layers), layers, layer);
    }
}

/// A path starts at its first digest, and each sibling leads on to the digest of the pair: the
/// sibling is the left one where the ancestor's index is odd.
pub proof fn law_paths_by_step<F: RichField, H: Hasher<F>>(
    start: H::Hash,
    index: nat,
    siblings: Seq<H::Hash>,
    next: H::Hash,
)
    ensures
        path_digest::<F, H>(start, index, Seq::empty()) == start,
        path_digest::<F, H>(start, index, siblings.push(next)) == if (index / pow2(siblings.len()))
            % 2 == 1 {
            H::node_digest(next, path_digest::<F, H>(start, index, siblings))
        } else {
            H::node_digest(path_digest::<F, H>(start, index, siblings), next)
        },
{
    assert(siblings.push(next).drop_last() =~= siblings);
}

/// Trees go to the GPU just if they have more than 4096 leaves and more leaves than entries of the
/// cap.
pub proof fn law_large_trees_go_to_the_gpu(leaf_count: nat, cap_height: nat)
    requires
        is_two_power(leaf_count),
    ensures
        goes_to_gpu(leaf_count, cap_height) <==> leaf_count > 4096 && pow2(cap_height) < leaf_count,
{
    let depth = log2(leaf_count);
    lemma_log2(depth);
    if cap_height < depth {
        lemma_pow2_strictly_increases(cap_height, depth);
    } else if depth < cap_height {
        lemma_pow2_strictly_increases(depth, cap_height);
    }
}

/// What a finished attempt computed is taken as it is, and nothing else of the attempt counts.
pub proof fn law_finished_attempts_are_taken<F: RichField, H: Hasher<F>>(
    tree: MerkleTree<F, H>,
    leaves: Seq<Vec<F>>,
    cap_height: nat,
    attempt: GpuAttempt<H::Hash>,
)
    requires
        is_two_power(leaves.len()),
        tree.is_gpu_build_of(leaves, cap_height, attempt),
    ensures
        tree.leaves@ == leaves,
        (attempt matches GpuAttempt::Finished { digests, cap } ==> leaves.len() > 4096 && pow2(
            cap_height,
        ) < leaves.len() ==> tree.digests@ == digests@ && tree.cap.0@ == cap@),
        leaves.len() <= 4096 || pow2(cap_height) >= leaves.len() || !(attempt is Finished)
            ==> tree.is_tree_of(leaves, cap_height),
{
    law_large_trees_go_to_the_gpu(leaves.len(), cap_height);
}

} // verus!
