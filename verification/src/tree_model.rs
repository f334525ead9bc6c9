//! What the nodes of a tree are, and how its digests are laid out.
//!
//! A tree is given by the digests of its leaves, the base. Layer zero is the base and each node
//! of a higher layer is the digest of two neighbours of the layer below.

use crate::field::RichField;
use crate::hash_types::Hasher;
use vstd::arithmetic::power2::*;
use vstd::prelude::*;

verus! {

/// The digests of the leaves.
pub open spec fn leaf_digests<F: RichField, H: Hasher<F>>(leaves: Seq<Vec<F>>) -> Seq<H::Hash> {
    Seq::new(leaves.len(), |i: int| H::leaf_digest(leaves[i]@))
}

/// The digest of the node `index` in layer `layer`.
pub open spec fn tree_node<F: RichField, H: Hasher<F>>(
    base: Seq<H::Hash>,
    layer: nat,
    index: int,
) -> H::Hash
    decreases layer,
{
    if layer == 0 {
        base[index]
    } else {
        H::node_digest(
            tree_node::<F, H>(base, (layer - 1) as nat, 2 * index),
            tree_node::<F, H>(base, (layer - 1) as nat, 2 * index + 1),
        )
    }
}

/// The nodes of a tree as a function of layer and index.
pub open spec fn tree_nodes<F: RichField, H: Hasher<F>>(base: Seq<H::Hash>) -> spec_fn(
    nat,
    int,
) -> H::Hash {
    |layer: nat, index: int| tree_node::<F, H>(base, layer, index)
}

/// The first `count` nodes of layer `layer`.
pub open spec fn tree_layer<F: RichField, H: Hasher<F>>(
    base: Seq<H::Hash>,
    layer: nat,
    count: nat,
) -> Seq<H::Hash> {
    Seq::new(count, |i: int| tree_node::<F, H>(base, layer, i))
}

/// The digests below the node `index` of layer `height`: those of the left child's subtree, the
/// left child, the right child, those of the right child's subtree.
pub open spec fn subtree_layout<T>(
    nodes: spec_fn(nat, int) -> T,
    height: nat,
    index: int,
) -> Seq<T>
    decreases height,
{
    if height == 0 {
        Seq::empty()
    } else {
        let below = (height - 1) as nat;
        subtree_layout(nodes, below, 2 * index) + seq![
            nodes(below, 2 * index),
            nodes(below, 2 * index + 1),
        ] + subtree_layout(nodes, below, 2 * index + 1)
    }
}

/// The layouts of the first `count` subtrees of height `height`, one after the other.
pub open spec fn forest_layout<T>(
    nodes: spec_fn(nat, int) -> T,
    height: nat,
    count: nat,
) -> Seq<T>
    decreases count,
{
    if count == 0 {
        Seq::empty()
    } else {
        forest_layout(nodes, height, (count - 1) as nat) + subtree_layout(nodes, height, count - 1)
    }
}

/// The number of digests below a node of layer `height`.
pub open spec fn subtree_len(height: nat) -> nat {
    (2 * (pow2(height) - 1)) as nat
}

/// Within a layout of height `height`, the place of the node `2 * pair + side` of layer `layer`,
/// where `pair` counts from the left edge of the subtree.
pub open spec fn slot(layer: nat, pair: int, side: int) -> int {
    2 * (pair * pow2(layer + 1) + pow2(layer) - 1) + side
}

/// A subtree's layout holds `2 * (2 ** height - 1)` digests.
pub proof fn lemma_subtree_len<T>(nodes: spec_fn(nat, int) -> T, height: nat, index: int)
    ensures
        subtree_layout(nodes, height, index).len() == subtree_len(height),
    decreases height,
{
    lemma2_to64();
    if height > 0 {
        lemma_subtree_len(nodes, (height - 1) as nat, 2 * index);
        lemma_subtree_len(nodes, (height - 1) as nat, 2 * index + 1);
        lemma_pow2_unfold(height);
        lemma_pow2_pos((height - 1) as nat);
    }
}

/// A forest's layout holds the digests of its subtrees.
pub proof fn lemma_forest_len<T>(nodes: spec_fn(nat, int) -> T, height: nat, count: nat)
    ensures
        forest_layout(nodes, height, count).len() == count * subtree_len(height),
    decreases count,
{
    if count > 0 {
        lemma_forest_len(nodes, height, (count - 1) as nat);
        lemma_subtree_len(nodes, height, count - 1);
        let n = subtree_len(height) as int;
        assert((count - 1) * n + n == count * n) by (nonlinear_arith);
    } else {
        assert(0 * subtree_len(height) == 0);
    }
}

/// The digests of the subtree `index` are contiguous in the forest.
pub proof fn lemma_forest_subtree<T>(
    nodes: spec_fn(nat, int) -> T,
    height: nat,
    count: nat,
    index: int,
)
    requires
        0 <= index < count,
    ensures
        0 <= index * subtree_len(height),
        (index + 1) * subtree_len(height) <= forest_layout(nodes, height, count).len(),
        forest_layout(nodes, height, count).subrange(
            index * subtree_len(height),
            (index + 1) * subtree_len(height),
        ) == subtree_layout(nodes, height, index),
    decreases count,
{
    let n = subtree_len(height) as int;
    let whole = forest_layout(nodes, height, count);
    let front = forest_layout(nodes, height, (count - 1) as nat);
    lemma_forest_len(nodes, height, count);
    lemma_forest_len(nodes, height, (count - 1) as nat);
    lemma_subtree_len(nodes, height, count - 1);
    assert(0 <= index * n && (index + 1) * n == index * n + n) by (nonlinear_arith)
        requires
            0 <= index,
            0 <= n,
    ;
    assert((index + 1) * n <= count * n) by (nonlinear_arith)
        requires
            index + 1 <= count,
            0 <= n,
    ;
    if index == count - 1 {
        assert(whole.subrange(index * n, (index + 1) * n) =~= subtree_layout(nodes, height, index));
    } else {
        lemma_forest_subtree(nodes, height, (count - 1) as nat, index);
        assert(whole.subrange(index * n, (index + 1) * n) =~= front.subrange(
            index * n,
            (index + 1) * n,
        ));
    }
}

/// Every node below the root of a subtree has its place in the layout.
pub proof fn lemma_slot<T>(
    nodes: spec_fn(nat, int) -> T,
    height: nat,
    index: int,
    layer: nat,
    pair: int,
    side: int,
)
    requires
        layer < height,
        0 <= pair < pow2((height - 1 - layer) as nat),
        side == 0 || side == 1,
    ensures
        0 <= slot(layer, pair, side) < subtree_len(height),
        subtree_layout(nodes, height, index)[slot(layer, pair, side)] == nodes(
            layer,
            2 * (index * pow2((height - 1 - layer) as nat) + pair) + side,
        ),
    decreases height,
{
    let below = (height - 1) as nat;
    let half = pow2(below) as int;
    let unit = pow2(layer) as int;
    lemma2_to64();
    lemma_pow2_unfold(height);
    lemma_pow2_unfold(layer + 1);
    lemma_pow2_pos(layer);
    lemma_pow2_pos(below);
    lemma_subtree_len(nodes, below, 2 * index);
    lemma_subtree_len(nodes, below, 2 * index + 1);
    lemma_subtree_len(nodes, height, index);
    let left = subtree_layout(nodes, below, 2 * index);
    let right = subtree_layout(nodes, below, 2 * index + 1);
    let whole = subtree_layout(nodes, height, index);
    if layer == below {
        assert(pair == 0);
        assert(pair * pow2(layer + 1) == 0) by (nonlinear_arith)
            requires
                pair == 0,
        ;
        assert(index * pow2(0) == index) by (nonlinear_arith)
            requires
                pow2(0) == 1,
        ;
    } else {
        let e = (height - 2 - layer) as nat;
        let width = pow2(e) as int;
        lemma_pow2_unfold(e + 1);
        lemma_pow2_adds(e, layer + 1);
        assert(e + (layer + 1) == below);
        assert(width * (2 * unit) == half);
        assert(index * (2 * width) == (2 * index) * width) by (nonlinear_arith);
        if pair < width {
            lemma_slot(nodes, below, 2 * index, layer, pair, side);
            assert(whole[slot(layer, pair, side)] == left[slot(layer, pair, side)]);
        } else {
            lemma_slot(nodes, below, 2 * index + 1, layer, pair - width, side);
            assert((pair - width) * (2 * unit) == pair * (2 * unit) - half) by (nonlinear_arith)
                requires
                    width * (2 * unit) == half,
            ;
            assert(slot(layer, pair - width, side) == slot(layer, pair, side) - 2 * half);
            assert((2 * index + 1) * width + (pair - width) == (2 * index) * width + pair)
                by (nonlinear_arith);
            assert(whole[slot(layer, pair, side)] == right[slot(layer, pair, side) - 2 * half]);
        }
    }
}

/// The nodes of a tree over a run of the base are nodes of the whole tree.
pub proof fn lemma_window_node<F: RichField, H: Hasher<F>>(
    base: Seq<H::Hash>,
    height: nat,
    place: int,
    layer: nat,
    index: int,
)
    requires
        layer <= height,
        0 <= place,
        (place + 1) * pow2(height) <= base.len(),
        0 <= index < pow2((height - layer) as nat),
    ensures
        tree_node::<F, H>(
            base.subrange(place * pow2(height), (place + 1) * pow2(height)),
            layer,
            index,
        ) == tree_node::<F, H>(base, layer, place * pow2((height - layer) as nat) + index),
    decreases layer,
{
    let size = pow2(height) as int;
    assert(0 <= place * size && (place + 1) * size == place * size + size) by (nonlinear_arith)
        requires
            0 <= place,
            0 <= size,
    ;
    if layer > 0 {
        let width = pow2((height - layer) as nat) as int;
        lemma_pow2_unfold((height - layer + 1) as nat);
        assert(2 * (place * width + index) == place * (2 * width) + 2 * index) by (nonlinear_arith);
        lemma_window_node::<F, H>(base, height, place, (layer - 1) as nat, 2 * index);
        lemma_window_node::<F, H>(base, height, place, (layer - 1) as nat, 2 * index + 1);
    }
}

/// The layout of a subtree over a run of the base is the layout of that subtree in the whole
/// tree.
pub proof fn lemma_window_layout<F: RichField, H: Hasher<F>>(
    base: Seq<H::Hash>,
    height: nat,
    place: int,
    layer: nat,
    index: int,
)
    requires
        layer <= height,
        0 <= place,
        (place + 1) * pow2(height) <= base.len(),
        0 <= index < pow2((height - layer) as nat),
    ensures
        subtree_layout(
            tree_nodes::<F, H>(
                base.subrange(place * pow2(height), (place + 1) * pow2(height)),
            ),
            layer,
            index,
        ) == subtree_layout(
            tree_nodes::<F, H>(base),
            layer,
            place * pow2((height - layer) as nat) + index,
        ),
    decreases layer,
{
    if layer > 0 {
        let width = pow2((height - layer) as nat) as int;
        lemma_pow2_unfold((height - layer + 1) as nat);
        assert(2 * (place * width + index) == place * (2 * width) + 2 * index) by (nonlinear_arith);
        let below = (layer - 1) as nat;
        lemma_window_node::<F, H>(base, height, place, below, 2 * index);
        lemma_window_node::<F, H>(base, height, place, below, 2 * index + 1);
        lemma_window_layout::<F, H>(base, height, place, below, 2 * index);
        lemma_window_layout::<F, H>(base, height, place, below, 2 * index + 1);
    }
}

/// Layouts depend only on the nodes that they hold.
pub proof fn lemma_layout_agrees<T>(
    one: spec_fn(nat, int) -> T,
    two: spec_fn(nat, int) -> T,
    height: nat,
    index: int,
)
    requires
        0 <= index,
        forall|layer: nat, i: int|
            layer < height && index * pow2((height - layer) as nat) <= i < (index + 1) * pow2(
                (height - layer) as nat,
            ) ==> one(layer, i) == #[trigger] two(layer, i),
    ensures
        subtree_layout(one, height, index) == subtree_layout(two, height, index),
    decreases height,
{
    if height > 0 {
        let below = (height - 1) as nat;
        lemma2_to64();
        assert(index * pow2(1) == 2 * index && (index + 1) * pow2(1) == 2 * index + 2)
            by (nonlinear_arith)
            requires
                pow2(1) == 2,
        ;
        assert(one(below, 2 * index) == two(below, 2 * index));
        assert(one(below, 2 * index + 1) == two(below, 2 * index + 1));
        assert forall|layer: nat, i: int|
            layer < below && (2 * index) * pow2((below - layer) as nat) <= i < (2 * index + 1)
                * pow2((below - layer) as nat) implies one(layer, i) == #[trigger] two(
            layer,
            i,
        ) by {
            let width = pow2((below - layer) as nat) as int;
            lemma_pow2_unfold((height - layer) as nat);
            assert(index * (2 * width) <= (2 * index) * width && (2 * index + 1) * width <= (index
                + 1) * (2 * width)) by (nonlinear_arith)
                requires
                    0 <= width,
            ;
        }
        assert forall|layer: nat, i: int|
            layer < below && (2 * index + 1) * pow2((below - layer) as nat) <= i < (2 * index + 1
                + 1) * pow2((below - layer) as nat) implies one(layer, i) == #[trigger] two(
            layer,
            i,
        ) by {
            let width = pow2((below - layer) as nat) as int;
            lemma_pow2_unfold((height - layer) as nat);
            assert(index * (2 * width) <= (2 * index + 1) * width && (2 * index + 1 + 1) * width
                <= (index + 1) * (2 * width)) by (nonlinear_arith)
                requires
                    0 <= width,
            ;
        }
        lemma_layout_agrees(one, two, below, 2 * index);
        lemma_layout_agrees(one, two, below, 2 * index + 1);
    }
}

} // verus!
