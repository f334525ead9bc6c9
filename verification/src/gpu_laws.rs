//! What holds of the GPU path as a whole.

use crate::field::{RichField, GOLDILOCKS_MODULUS};
use crate::gpu_bindings::KERNEL_ARGS_BYTES;
use crate::gpu_bytes::bytes_of_words;
use crate::gpu_dispatch::{
    chunk_count, law_chunks_cover, layer_dispatch_of, leaf_chunk, lemma_layer_bounds,
    lemma_rows_words_len, row_words, rows_words, MerkleSchedule, MerkleTreeKernelArgs,
};
use crate::gpu_plan::{layer_offset, layer_size, lemma_layer_offset, lemma_offset_grows, MerklePlan};
use crate::gpu_readback::{
    cap_part, decoded, law_decoded_in_words, layered_node, layered_nodes, leaf_part, node_part,
    readback_words, GpuMerkleOutput,
};
use crate::gpu_words::{
    digest_of, hash_of, law_limbs_in_numbers, lemma_limbs, limbs, montgomery, number,
    BYTES_PER_BIGINT, BYTES_PER_DIGEST, MONTGOMERY_R, WORDS_PER_DIGEST,
};
use crate::hash_types::{HashOut, Hasher};
use crate::laws::law_trees_are_determined;
use crate::merkle_tree::{goes_to_gpu, GpuAttempt, MerkleTree};
use crate::tree_model::{
    forest_layout, leaf_digests, lemma_forest_len, lemma_forest_subtree, lemma_layout_agrees,
    lemma_slot, lemma_subtree_len, lemma_window_layout, subtree_layout, tree_layer, tree_node, tree_nodes,
};
use crate::util::{lemma_exponent_fits, lemma_log2, lemma_pow2_monotone};
use vstd::arithmetic::power2::*;
use vstd::endian::Endian;
use vstd::prelude::*;

verus! {

// ---------------------------------------------------------------------------------------------
// The layers
// ---------------------------------------------------------------------------------------------

/// The digest `index` of the layer that a dispatch reads.
pub open spec fn source<T>(
    leaf_hashes: Seq<T>,
    node_hashes: Seq<T>,
    args: MerkleTreeKernelArgs,
    index: int,
) -> T {
    if args.layer == 0 {
        leaf_hashes[index]
    } else {
        node_hashes[args.src_offset + index]
    }
}

/// The digest `index` of the layer that a dispatch writes.
pub open spec fn destination<T>(
    node_hashes: Seq<T>,
    cap_hashes: Seq<T>,
    args: MerkleTreeKernelArgs,
    index: int,
) -> T {
    if args.write_to_cap == 1 {
        cap_hashes[args.dst_offset + index]
    } else {
        node_hashes[args.dst_offset + index]
    }
}

/// The buffers hold what the dispatch computes: each digest that it writes is that of a pair of
/// neighbours that it reads.
pub open spec fn carried_out<F: RichField, H: Hasher<F>>(
    leaf_hashes: Seq<H::Hash>,
    node_hashes: Seq<H::Hash>,
    cap_hashes: Seq<H::Hash>,
    args: MerkleTreeKernelArgs,
) -> bool {
    forall|i: int|
        0 <= i < args.dst_layer_size ==> #[trigger] destination(node_hashes, cap_hashes, args, i)
            == H::node_digest(
            source(leaf_hashes, node_hashes, args, 2 * i),
            source(leaf_hashes, node_hashes, args, 2 * i + 1),
        )
}

/// The buffers hold what all dispatches of a tree compute.
pub open spec fn all_carried_out<F: RichField, H: Hasher<F>>(
    plan: MerklePlan,
    leaf_hashes: Seq<H::Hash>,
    node_hashes: Seq<H::Hash>,
    cap_hashes: Seq<H::Hash>,
) -> bool {
    forall|layer: nat|
        layer < plan.num_layers_to_cap ==> carried_out::<F, H>(
            leaf_hashes,
            node_hashes,
            cap_hashes,
            (#[trigger] layer_dispatch_of(plan, layer)).args,
        )
}

/// Once the dispatches of a tree are carried out, each layer in the buffers is the layer of the
/// tree over the leaf digests.
pub proof fn law_dispatches_build_the_tree<F: RichField, H: Hasher<F>>(
    plan: MerklePlan,
    leaf_hashes: Seq<H::Hash>,
    node_hashes: Seq<H::Hash>,
    cap_hashes: Seq<H::Hash>,
    layer: nat,
    index: int,
)
    requires
        plan.wf(),
        leaf_hashes.len() == plan.num_leaves,
        all_carried_out::<F, H>(plan, leaf_hashes, node_hashes, cap_hashes),
        layer <= plan.num_layers_to_cap,
        0 <= index < layer_size(plan.num_leaves as nat, layer),
    ensures
        layered_node(
            leaf_hashes,
            node_hashes,
            cap_hashes,
            plan.num_layers_to_cap as nat,
            layer,
            index,
        ) == tree_node::<F, H>(leaf_hashes, layer, index),
    decreases layer,
{
    if layer > 0 {
        let below = (layer - 1) as nat;
        let args = layer_dispatch_of(plan, below).args;
        lemma_layer_bounds(plan, below);
        lemma_layer_bounds(plan, layer);
        lemma_pow2_unfold((plan.cap_height + plan.num_layers_to_cap - below) as nat);
        law_dispatches_build_the_tree::<F, H>(
            plan,
            leaf_hashes,
            node_hashes,
            cap_hashes,
            below,
            2 * index,
        );
        law_dispatches_build_the_tree::<F, H>(
            plan,
            leaf_hashes,
            node_hashes,
            cap_hashes,
            below,
            2 * index + 1,
        );
        lemma_exponent_fits((plan.cap_height + plan.num_layers_to_cap) as nat);
        assert(args.layer == below);
        assert(carried_out::<F, H>(leaf_hashes, node_hashes, cap_hashes, args));
        assert(destination(node_hashes, cap_hashes, args, index) == layered_node(
            leaf_hashes,
            node_hashes,
            cap_hashes,
            plan.num_layers_to_cap as nat,
            layer,
            index,
        ));
    }
}

/// Forests depend only on the nodes that they hold.
proof fn lemma_forest_agrees<T>(
    one: spec_fn(nat, int) -> T,
    two: spec_fn(nat, int) -> T,
    height: nat,
    count: nat,
)
    requires
        forall|layer: nat, i: int|
            layer < height && 0 <= i < count * pow2((height - layer) as nat) ==> one(layer, i)
                == #[trigger] two(layer, i),
    ensures
        forest_layout(one, height, count) == forest_layout(two, height, count),
    decreases count,
{
    if count > 0 {
        let last = count - 1;
        assert forall|layer: nat, i: int|
            layer < height && 0 <= i < last * pow2((height - layer) as nat) implies one(layer, i)
            == #[trigger] two(layer, i) by {
            let width = pow2((height - layer) as nat) as int;
            assert(last * width <= count * width) by (nonlinear_arith)
                requires
                    last <= count,
                    0 <= width,
            ;
        }
        lemma_forest_agrees(one, two, height, last as nat);
        assert forall|layer: nat, i: int|
            layer < height && last * pow2((height - layer) as nat) <= i < (last + 1) * pow2(
                (height - layer) as nat,
            ) implies one(layer, i) == #[trigger] two(layer, i) by {
            let width = pow2((height - layer) as nat) as int;
            assert(0 <= last * width) by (nonlinear_arith)
                requires
                    0 <= last,
                    0 <= width,
            ;
        }
        lemma_layout_agrees(one, two, height, last);
    }
}

/// The device did its work: the leaf digests among the words that were read back are those of the
/// leaves, and nodes and cap are what the dispatches compute from them.
pub open spec fn device_did_its_work<F: RichField, H: Hasher<F, Hash = HashOut<F>>>(
    plan: MerklePlan,
    leaves: Seq<Vec<F>>,
    words: Seq<u32>,
) -> bool {
    &&& leaf_part::<F>(plan, words) == leaf_digests::<F, H>(leaves)
    &&& cap_part::<F>(plan, words).len() == plan.cap_len
    &&& all_carried_out::<F, H>(
        plan,
        leaf_part(plan, words),
        node_part(plan, words),
        cap_part(plan, words),
    )
}

/// The output of the GPU mirrors the tree that the CPU builds: where the device did its work, a
/// tree with that output is the tree over the leaves.
pub proof fn law_gpu_output_mirrors_the_cpu<F: RichField, H: Hasher<F, Hash = HashOut<F>>>(
    plan: MerklePlan,
    words: Seq<u32>,
    leaves: Seq<Vec<F>>,
    output: GpuMerkleOutput<F>,
    tree: MerkleTree<F, H>,
)
    requires
        plan.wf(),
        leaves.len() == plan.num_leaves,
        device_did_its_work::<F, H>(plan, leaves, words),
        output.is_output_of(plan, words),
        tree.leaves@ == leaves,
        tree.digests@ == output.digests@,
        tree.cap.0@ == output.cap@,
    ensures
        tree.is_tree_of(leaves, plan.cap_height as nat),
{
    let layers = plan.num_layers_to_cap as nat;
    let depth = (plan.cap_height + plan.num_layers_to_cap) as nat;
    let base = leaf_digests::<F, H>(leaves);
    let node_hashes = node_part::<F>(plan, words);
    let cap_hashes = cap_part::<F>(plan, words);
    let nodes = layered_nodes(base, node_hashes, cap_hashes, layers);
    let count = plan.cap_len as nat;
    lemma_log2(depth);
    lemma_log2(plan.cap_height as nat);
    lemma_pow2_monotone(plan.cap_height as nat, depth);
    assert forall|layer: nat, i: int|
        layer < layers && 0 <= i < count * pow2((layers - layer) as nat) implies nodes(layer, i)
        == #[trigger] (tree_nodes::<F, H>(base))(layer, i) by {
        lemma_layer_bounds(plan, layer);
        lemma_pow2_adds(plan.cap_height as nat, (layers - layer) as nat);
        law_dispatches_build_the_tree::<F, H>(plan, base, node_hashes, cap_hashes, layer, i);
    }
    lemma_forest_agrees(nodes, tree_nodes::<F, H>(base), layers, count);
    assert forall|i: int| 0 <= i < count implies #[trigger] cap_hashes[i] == tree_node::<F, H>(
        base,
        layers,
        i,
    ) by {
        lemma_layer_bounds(plan, layers);
        law_dispatches_build_the_tree::<F, H>(plan, base, node_hashes, cap_hashes, layers, i);
    }
    assert(cap_hashes =~= tree_layer::<F, H>(base, layers, count));
    lemma_forest_len(tree_nodes::<F, H>(base), layers, count);
    lemma_pow2_adds(layers, plan.cap_height as nat);
    lemma_pow2_pos(layers);
    let size = pow2(layers) as int;
    assert(count * (2 * (size - 1)) == 2 * (size * count - count)) by (nonlinear_arith);
}

/// For every hash function: where a tree does not go to the GPU, or the GPU did not finish it,
/// building it that way gives the CPU's tree.
pub proof fn law_cpu_steps_in<F: RichField, H: Hasher<F>>(
    gpu: MerkleTree<F, H>,
    cpu: MerkleTree<F, H>,
    leaves: Seq<Vec<F>>,
    cap_height: nat,
    attempt: GpuAttempt<H::Hash>,
)
    requires
        gpu.is_gpu_build_of(leaves, cap_height, attempt),
        cpu.is_tree_of(leaves, cap_height),
        !goes_to_gpu(leaves.len(), cap_height) || !(attempt is Finished),
    ensures
        gpu.leaves@ == cpu.leaves@,
        gpu.digests@ == cpu.digests@,
        gpu.cap.0@ == cpu.cap.0@,
{
}

/// Building a tree by way of the GPU gives the CPU's tree in leaves, digests and cap, whatever
/// came of the attempt: a finished one holds the output that was read from a device that did its
/// work, and any other does not count.
pub proof fn law_gpu_build_is_the_cpu_build<F: RichField, H: Hasher<F, Hash = HashOut<F>>>(
    gpu: MerkleTree<F, H>,
    cpu: MerkleTree<F, H>,
    leaves: Seq<Vec<F>>,
    cap_height: nat,
    attempt: GpuAttempt<HashOut<F>>,
    plan: MerklePlan,
    words: Seq<u32>,
    output: GpuMerkleOutput<F>,
)
    requires
        gpu.is_gpu_build_of(leaves, cap_height, attempt),
        cpu.is_tree_of(leaves, cap_height),
        attempt is Finished ==> {
            &&& plan.wf()
            &&& plan.num_leaves == leaves.len()
            &&& plan.cap_height == cap_height
            &&& device_did_its_work::<F, H>(plan, leaves, words)
            &&& output.is_output_of(plan, words)
            &&& attempt->digests@ == output.digests@
            &&& attempt->cap@ == output.cap@
        },
    ensures
        gpu.leaves@ == cpu.leaves@,
        gpu.digests@ == cpu.digests@,
        gpu.cap.0@ == cpu.cap.0@,
{
    if goes_to_gpu(leaves.len(), cap_height) && attempt is Finished {
        law_gpu_output_mirrors_the_cpu(plan, words, leaves, output, gpu);
    }
    law_trees_are_determined(gpu, cpu, leaves, cap_height);
}

/// The nodes of the layers from the first one up to and without `upto`, one layer after the
/// other.
pub open spec fn node_layers<F: RichField, H: Hasher<F>>(base: Seq<H::Hash>, upto: nat) -> Seq<
    H::Hash,
>
    decreases upto,
{
    if upto <= 1 {
        Seq::empty()
    } else {
        let last = (upto - 1) as nat;
        node_layers::<F, H>(base, last) + tree_layer::<F, H>(
            base,
            last,
            layer_size(base.len(), last),
        )
    }
}

/// Each layer has its place among the nodes.
proof fn lemma_node_layers<F: RichField, H: Hasher<F>>(
    base: Seq<H::Hash>,
    upto: nat,
    layer: nat,
    index: int,
)
    ensures
        node_layers::<F, H>(base, upto).len() == layer_offset(base.len(), upto),
        1 <= layer < upto && 0 <= index < layer_size(base.len(), layer) ==> {
            let at = layer_offset(base.len(), layer) + index;
            &&& 0 <= at < node_layers::<F, H>(base, upto).len()
            &&& node_layers::<F, H>(base, upto)[at] == tree_node::<F, H>(base, layer, index)
        },
    decreases upto,
{
    if upto > 1 {
        lemma_node_layers::<F, H>(base, (upto - 1) as nat, layer, index);
        if layer < upto {
            lemma_offset_grows(base.len(), layer, (upto - 1) as nat);
        }
    }
}

/// The digests that a tree's buffers are to hold: those of the leaves, the nodes layer by layer,
/// the cap.
pub open spec fn tree_hashes<F: RichField, H: Hasher<F, Hash = HashOut<F>>>(
    plan: MerklePlan,
    leaves: Seq<Vec<F>>,
) -> Seq<HashOut<F>> {
    let base = leaf_digests::<F, H>(leaves);
    let layers = plan.num_layers_to_cap as nat;
    base + node_layers::<F, H>(base, layers) + tree_layer::<F, H>(
        base,
        layers,
        plan.cap_len as nat,
    )
}

/// A device whose buffers hold the words of a tree's digests did its work.
pub proof fn law_right_words_are_the_work<F: RichField, H: Hasher<F, Hash = HashOut<F>>>(
    plan: MerklePlan,
    leaves: Seq<Vec<F>>,
    words: Seq<u32>,
)
    requires
        plan.wf(),
        leaves.len() == plan.num_leaves,
        forall|i: int|
            0 <= i < tree_hashes::<F, H>(plan, leaves).len() ==> canonical(
                #[trigger] tree_hashes::<F, H>(plan, leaves)[i],
            ),
        words == hashes_words(tree_hashes::<F, H>(plan, leaves)),
    ensures
        device_did_its_work::<F, H>(plan, leaves, words),
{
    let base = leaf_digests::<F, H>(leaves);
    let layers = plan.num_layers_to_cap as nat;
    let n = plan.num_leaves as nat;
    let nodes = node_layers::<F, H>(base, layers);
    let cap = tree_layer::<F, H>(base, layers, plan.cap_len as nat);
    let all = tree_hashes::<F, H>(plan, leaves);
    let node_end = (plan.num_leaves + plan.total_nodes) as int;
    lemma_node_layers::<F, H>(base, layers, 0, 0);
    law_words_give_runs_back(all, 0, n as int);
    law_words_give_runs_back(all, n as int, node_end);
    law_words_give_runs_back(all, node_end, node_end + plan.cap_len);
    assert(all.subrange(0, n as int) =~= base);
    assert(all.subrange(n as int, node_end) =~= nodes);
    assert(all.subrange(node_end, node_end + plan.cap_len) =~= cap);
    assert(leaf_part::<F>(plan, words) == base);
    assert(node_part::<F>(plan, words) == nodes);
    assert(cap_part::<F>(plan, words) == cap);
    assert forall|layer: nat| layer < plan.num_layers_to_cap implies carried_out::<F, H>(
        base,
        nodes,
        cap,
        (#[trigger] layer_dispatch_of(plan, layer)).args,
    ) by {
        let args = layer_dispatch_of(plan, layer).args;
        lemma_layer_bounds(plan, layer);
        lemma_layer_bounds(plan, layer + 1);
        lemma_pow2_unfold((plan.cap_height + plan.num_layers_to_cap - layer) as nat);
        lemma_exponent_fits((plan.cap_height + plan.num_layers_to_cap) as nat);
        assert forall|i: int| 0 <= i < args.dst_layer_size implies #[trigger] destination(
            nodes,
            cap,
            args,
            i,
        ) == H::node_digest(source(base, nodes, args, 2 * i), source(base, nodes, args, 2 * i + 1))
            by {
            lemma_node_layers::<F, H>(base, layers, layer, 2 * i);
            lemma_node_layers::<F, H>(base, layers, layer, 2 * i + 1);
            lemma_node_layers::<F, H>(base, layers, layer + 1, i);
            assert(source(base, nodes, args, 2 * i) == tree_node::<F, H>(base, layer, 2 * i));
            assert(source(base, nodes, args, 2 * i + 1) == tree_node::<F, H>(
                base,
                layer,
                2 * i + 1,
            ));
            assert(destination(nodes, cap, args, i) == tree_node::<F, H>(base, layer + 1, i));
        }
    }
}

/// Where the digest of each node goes in what is written for a subtree: for the node `j` of layer
/// `layer`, counted from the subtree's left edge, at
/// `2 * ((j / 2) * 2 ** (layer + 1)) + 2 * (2 ** layer - 1) + j % 2`.
pub proof fn law_subtree_slots<T>(
    nodes: spec_fn(nat, int) -> T,
    height: nat,
    leaf_offset: nat,
    layer: nat,
    j: int,
)
    requires
        leaf_offset % pow2(height) == 0,
        layer < height,
        0 <= j < pow2((height - layer) as nat),
    ensures
        ({
            let at = 2 * ((j / 2) * pow2(layer + 1)) + 2 * (pow2(layer) - 1) + j % 2;
            let layout = subtree_layout(
                nodes,
                height,
                (leaf_offset / pow2(height)) as int,
            );
            &&& 0 <= at < layout.len()
            &&& layout[at] == nodes(layer, leaf_offset / pow2(layer) + j)
        }),
{
    let e = (height - 1 - layer) as nat;
    let place = (leaf_offset / pow2(height)) as int;
    let width = pow2(e) as int;
    let unit = pow2(layer) as int;
    lemma_pow2_unfold((height - layer) as nat);
    lemma_pow2_pos(height);
    lemma_pow2_pos(layer);
    lemma_pow2_adds((height - layer) as nat, layer);
    assert((height - layer) as nat + layer == height);
    lemma_slot(nodes, height, place, layer, j / 2, j % 2);
    lemma_subtree_len(nodes, height, place);
    vstd::arithmetic::div_mod::lemma_fundamental_div_mod(leaf_offset as int, pow2(height) as int);
    assert(pow2(height) * place == (place * (2 * width)) * unit) by (nonlinear_arith)
        requires
            pow2(height) == (2 * width) * unit,
    ;
    vstd::arithmetic::div_mod::lemma_div_by_multiple(place * (2 * width), unit);
    assert(2 * (place * width + j / 2) + j % 2 == place * (2 * width) + j) by (nonlinear_arith)
        requires
            j == 2 * (j / 2) + j % 2,
    ;
}

/// Where the digest of each node goes in what is written for a forest: the subtrees follow one
/// another with `2 * (2 ** height - 1)` digests each, and within them the node `j` of layer
/// `layer` has the place of `law_subtree_slots`.
pub proof fn law_forest_slots<T>(
    nodes: spec_fn(nat, int) -> T,
    height: nat,
    count: nat,
    s: int,
    layer: nat,
    j: int,
)
    requires
        0 <= s < count,
        layer < height,
        0 <= j < pow2((height - layer) as nat),
    ensures
        ({
            let at = s * (2 * (pow2(height) - 1)) + 2 * ((j / 2) * pow2(layer + 1)) + 2 * (pow2(
                layer,
            ) - 1) + j % 2;
            &&& forest_layout(nodes, height, count).len() == count * (2 * (pow2(height) - 1))
            &&& 0 <= at < forest_layout(nodes, height, count).len()
            &&& forest_layout(nodes, height, count)[at] == nodes(
                layer,
                s * pow2((height - layer) as nat) + j,
            )
        }),
{
    let size = pow2(height) as int;
    let unit = pow2(layer) as int;
    let width = pow2((height - layer) as nat) as int;
    lemma_pow2_pos(height);
    lemma_pow2_pos(layer);
    assert(0 <= s * size) by (nonlinear_arith)
        requires
            0 <= s,
            0 <= size,
    ;
    let leaf_offset = (s * size) as nat;
    vstd::arithmetic::div_mod::lemma_mod_multiples_basic(s, size);
    vstd::arithmetic::div_mod::lemma_div_by_multiple(s, size);
    lemma_pow2_adds((height - layer) as nat, layer);
    assert((height - layer) as nat + layer == height);
    assert(s * size == (s * width) * unit) by (nonlinear_arith)
        requires
            size == width * unit,
    ;
    vstd::arithmetic::div_mod::lemma_div_by_multiple(s * width, unit);
    law_subtree_slots(nodes, height, leaf_offset, layer, j);
    lemma_forest_len(nodes, height, count);
    lemma_subtree_len(nodes, height, s);
    lemma_forest_subtree(nodes, height, count, s);
    let n = 2 * (size - 1);
    assert((s + 1) * n == s * n + n) by (nonlinear_arith);
    let within = 2 * ((j / 2) * pow2(layer + 1)) + 2 * (pow2(layer) - 1) + j % 2;
    let part = forest_layout(nodes, height, count).subrange(s * n, (s + 1) * n);
    assert(part[within] == forest_layout(nodes, height, count)[s * n + within]);
}

/// Where the output of the GPU has each hash that was read back: the cap as it is, and the hash of
/// the node `j` of layer `layer` in the subtree `s` at the place of `law_forest_slots`. Layer zero
/// is the leaf digests, and each other layer lies among the nodes behind the layers below it.
pub proof fn law_outputs_by_place<F: RichField>(
    plan: MerklePlan,
    leaf_hashes: Seq<HashOut<F>>,
    node_hashes: Seq<HashOut<F>>,
    cap_hashes: Seq<HashOut<F>>,
    s: int,
    layer: nat,
    j: int,
)
    requires
        plan.shaped(),
        leaf_hashes.len() == plan.num_leaves,
        0 <= s < plan.cap_len,
        layer < plan.num_layers_to_cap,
        0 <= j < pow2((plan.num_layers_to_cap - layer) as nat),
    ensures
        ({
            let layers = plan.num_layers_to_cap as nat;
            let digests = forest_layout(
                layered_nodes(leaf_hashes, node_hashes, cap_hashes, layers),
                layers,
                plan.cap_len as nat,
            );
            let at = s * (2 * (pow2(layers) - 1)) + 2 * ((j / 2) * pow2(layer + 1)) + 2 * (pow2(
                layer,
            ) - 1) + j % 2;
            let index = s * pow2((layers - layer) as nat) + j;
            let below = plan.num_leaves - 2 * (plan.cap_len * pow2((layers - layer) as nat));
            &&& digests.len() == 2 * (plan.num_leaves - plan.cap_len)
            &&& 0 <= at < digests.len()
            &&& layer == 0 ==> digests[at] == leaf_hashes[index]
            &&& layer > 0 ==> digests[at] == node_hashes[below + index]
        }),
{
    let layers = plan.num_layers_to_cap as nat;
    let depth = (plan.cap_height + plan.num_layers_to_cap) as nat;
    let count = plan.cap_len as nat;
    law_forest_slots(
        layered_nodes(leaf_hashes, node_hashes, cap_hashes, layers),
        layers,
        count,
        s,
        layer,
        j,
    );
    lemma_pow2_adds(plan.cap_height as nat, layers);
    lemma_pow2_adds(plan.cap_height as nat, (layers - layer) as nat);
    let size = pow2(layers) as int;
    let c = count as int;
    assert(c * (2 * (size - 1)) == 2 * (c * size - c)) by (nonlinear_arith);
    if layer > 0 {
        lemma_layer_offset(depth, layer);
        lemma_pow2_unfold((depth - layer + 1) as nat);
    }
}

/// The output of the GPU in terms of the words that were read back: leaf digests, nodes and cap
/// follow one another with eight words to a hash and two to an element, the low one first, and
/// `law_outputs_by_place` says where each hash goes.
pub proof fn law_outputs_in_words<F: RichField>(
    plan: MerklePlan,
    words: Seq<u32>,
    output: GpuMerkleOutput<F>,
    s: int,
    layer: nat,
    j: int,
    e: int,
)
    requires
        plan.shaped(),
        readback_words(plan) <= words.len(),
        output.is_output_of(plan, words),
        0 <= s < plan.cap_len,
        0 <= e < 4,
    ensures
        output.cap@.len() == plan.cap_len,
        plan.num_layers_to_cap > 0 ==> ({
            let at = 8 * (2 * plan.num_leaves - 2 * plan.cap_len + s) + 2 * e;
            output.cap@[s].elements@[e] == F::of_canonical(
                (words[at] + 0x1_0000_0000 * words[at + 1]) as u64,
            )
        }),
        plan.num_layers_to_cap == 0 ==> ({
            let at = 8 * (plan.num_leaves + s) + 2 * e;
            output.digests@.len() == 0 && output.cap@[s].elements@[e] == F::of_canonical(
                (words[at] + 0x1_0000_0000 * words[at + 1]) as u64,
            )
        }),
        layer < plan.num_layers_to_cap && 0 <= j < pow2((plan.num_layers_to_cap - layer) as nat)
            ==> ({
            let layers = plan.num_layers_to_cap as nat;
            let place = s * (2 * (pow2(layers) - 1)) + 2 * ((j / 2) * pow2(layer + 1)) + 2 * (pow2(
                layer,
            ) - 1) + j % 2;
            let index = s * pow2((layers - layer) as nat) + j;
            let hash = if layer == 0 {
                index
            } else {
                2 * plan.num_leaves - 2 * (plan.cap_len * pow2((layers - layer) as nat)) + index
            };
            let at = 8 * hash + 2 * e;
            &&& output.digests@.len() == 2 * (plan.num_leaves - plan.cap_len)
            &&& 0 <= place < output.digests@.len()
            &&& output.digests@[place].elements@[e] == F::of_canonical(
                (words[at] + 0x1_0000_0000 * words[at + 1]) as u64,
            )
        }),
{
    let n = plan.num_leaves as int;
    let total = plan.total_nodes as int;
    let layers = plan.num_layers_to_cap as nat;
    let leaf = words.subrange(0, 8 * n);
    let node = words.subrange(8 * n, 8 * (n + total));
    let cap = words.subrange(8 * (n + total), 8 * (n + total + plan.cap_len));
    assert(readback_words(plan) == 8 * (n + total + plan.cap_len));
    law_decoded_in_words::<F>(cap, s, e);
    assert(cap[8 * s + 2 * e] == words[8 * (n + total) + (8 * s + 2 * e)]);
    assert(cap[8 * s + 2 * e + 1] == words[8 * (n + total) + (8 * s + 2 * e + 1)]);
    if layers > 0 {
        law_node_count(plan);
    } else {
        let nodes = layered_nodes(
            decoded::<F>(leaf),
            decoded::<F>(node),
            decoded::<F>(cap),
            layers,
        );
        lemma2_to64();
        lemma_forest_len(nodes, layers, plan.cap_len as nat);
        assert(plan.cap_len * (2 * (pow2(0) - 1)) == 0) by (nonlinear_arith)
            requires
                pow2(0) == 1,
        ;
    }
    if layer < layers && 0 <= j < pow2((layers - layer) as nat) {
        let width = pow2((layers - layer) as nat) as int;
        let index = s * width + j;
        let depth = (plan.cap_height + plan.num_layers_to_cap) as nat;
        law_outputs_by_place(
            plan,
            decoded::<F>(leaf),
            decoded::<F>(node),
            decoded::<F>(cap),
            s,
            layer,
            j,
        );
        lemma_pow2_adds(plan.cap_height as nat, (layers - layer) as nat);
        lemma_pow2_monotone((plan.cap_height + (layers - layer)) as nat, depth);
        let c = plan.cap_len as int;
        assert(0 <= s * width && s * width + width <= c * width) by (nonlinear_arith)
            requires
                0 <= s,
                s + 1 <= c,
                0 <= width,
        ;
        if layer == 0 {
            law_decoded_in_words::<F>(leaf, index, e);
        } else {
            lemma_layer_offset(depth, layer);
            lemma_pow2_unfold((depth - layer + 1) as nat);
            crate::gpu_plan::lemma_layer_size(depth, layer);
            lemma_offset_grows(plan.num_leaves as nat, layer + 1, layers);
            let inner = n - 2 * (c * width) + index;
            law_decoded_in_words::<F>(node, inner, e);
            assert(node[8 * inner + 2 * e] == words[8 * n + (8 * inner + 2 * e)]);
            assert(node[8 * inner + 2 * e + 1] == words[8 * n + (8 * inner + 2 * e + 1)]);
        }
    }
}

/// What is written for a subtree whose nodes are the hashes of the leaves is what the CPU fills in
/// for the tree over the subtree's leaves.
pub proof fn law_written_subtrees_are_filled_ones<F: RichField, H: Hasher<F>>(
    nodes: spec_fn(nat, int) -> H::Hash,
    leaves: Seq<Vec<F>>,
    height: nat,
    place: int,
)
    requires
        0 <= place,
        (place + 1) * pow2(height) <= leaves.len(),
        forall|layer: nat, i: int|
            layer < height && place * pow2((height - layer) as nat) <= i < (place + 1) * pow2(
                (height - layer) as nat,
            ) ==> nodes(layer, i) == #[trigger] tree_node::<F, H>(
                leaf_digests::<F, H>(leaves),
                layer,
                i,
            ),
    ensures
        subtree_layout(nodes, height, place) == subtree_layout(
            tree_nodes::<F, H>(
                leaf_digests::<F, H>(
                    leaves.subrange(place * pow2(height), (place + 1) * pow2(height)),
                ),
            ),
            height,
            0,
        ),
{
    let base = leaf_digests::<F, H>(leaves);
    let size = pow2(height) as int;
    assert(0 <= place * size && place * size <= (place + 1) * size) by (nonlinear_arith)
        requires
            0 <= place,
            0 <= size,
    ;
    let two = tree_nodes::<F, H>(base);
    assert forall|layer: nat, i: int|
        layer < height && place * pow2((height - layer) as nat) <= i < (place + 1) * pow2(
            (height - layer) as nat,
        ) implies nodes(layer, i) == #[trigger] two(layer, i) by {
        assert(two(layer, i) == tree_node::<F, H>(base, layer, i));
    }
    lemma_layout_agrees(nodes, two, height, place);
    lemma2_to64();
    assert(leaf_digests::<F, H>(leaves.subrange(place * size, (place + 1) * size))
        =~= base.subrange(place * size, (place + 1) * size));
    lemma_window_layout::<F, H>(base, height, place, height, 0);
    assert(place * pow2(0) + 0 == place) by (nonlinear_arith)
        requires
            pow2(0) == 1,
    ;
}

/// The nodes strictly between the leaves and the cap are as many as the leaves, less two for each
/// entry of the cap.
pub proof fn law_node_count(plan: MerklePlan)
    requires
        plan.shaped(),
        plan.num_layers_to_cap > 0,
    ensures
        plan.total_nodes == plan.num_leaves - 2 * plan.cap_len,
{
    let depth = (plan.cap_height + plan.num_layers_to_cap) as nat;
    lemma_layer_offset(depth, plan.num_layers_to_cap as nat);
    lemma_pow2_unfold((plan.cap_height + 1) as nat);
}

/// The layers below the cap lie in the node buffer one behind the other, and fill it.
pub proof fn law_layers_fill_the_nodes(plan: MerklePlan, layer: nat)
    requires
        plan.shaped(),
        1 <= layer < plan.num_layers_to_cap,
    ensures
        layer == 1 ==> layer_offset(plan.num_leaves as nat, layer) == 0,
        layer_offset(plan.num_leaves as nat, layer) + layer_size(plan.num_leaves as nat, layer)
            == layer_offset(plan.num_leaves as nat, layer + 1),
        layer_offset(plan.num_leaves as nat, layer + 1) <= plan.total_nodes,
        layer + 1 == plan.num_layers_to_cap ==> layer_offset(plan.num_leaves as nat, layer + 1)
            == plan.total_nodes,
{
    lemma_offset_grows(plan.num_leaves as nat, layer + 1, plan.num_layers_to_cap as nat);
}

// ---------------------------------------------------------------------------------------------
// Words
// ---------------------------------------------------------------------------------------------

/// Montgomery form can be undone: multiplying with the inverse of `2^64`, which is `p - 2^32`,
/// gives the element back.
pub proof fn law_montgomery_can_be_undone(value: u64)
    requires
        value < GOLDILOCKS_MODULUS,
    ensures
        (montgomery(value) * (GOLDILOCKS_MODULUS - 0x1_0000_0000)) % (GOLDILOCKS_MODULUS as int)
            == value,
{
    let p = GOLDILOCKS_MODULUS as int;
    let r = MONTGOMERY_R as int;
    let inverse = p - 0x1_0000_0000;
    let v = value as int;
    vstd::arithmetic::div_mod::lemma_mul_mod_noop_left(v * r, inverse, p);
    assert(r * inverse == 1 + p * 0xFFFF_FFFE_FFFF_FFFF);
    assert((v * r) * inverse == v + p * (v * 0xFFFF_FFFE_FFFF_FFFF)) by (nonlinear_arith)
        requires
            r * inverse == 1 + p * 0xFFFF_FFFE_FFFF_FFFF,
    ;
    vstd::arithmetic::div_mod::lemma_mod_multiples_vanish(v * 0xFFFF_FFFE_FFFF_FFFF, v, p);
    vstd::arithmetic::div_mod::lemma_small_mod(value as nat, p as nat);
}

/// Reading an element back from its words gives the element.
pub proof fn law_words_give_elements_back<F: RichField>(element: F)
    requires
        element.value() < GOLDILOCKS_MODULUS,
    ensures
        F::of_canonical(number(limbs(element.value())[0], limbs(element.value())[1])) == element,
{
    lemma_limbs(element.value());
    element.lemma_value_determines();
}

/// The element that two words spell out has these words, as long as they spell out a canonical
/// representative.
pub proof fn law_elements_give_words_back<F: RichField>(low: u32, high: u32)
    requires
        number(low, high) < GOLDILOCKS_MODULUS,
    ensures
        limbs(F::of_canonical(number(low, high)).value()) == seq![low, high],
{
    F::lemma_of_canonical(number(low, high));
    assert(limbs(number(low, high)) =~= seq![low, high]);
}

/// The elements of the hash are given by canonical representatives.
pub open spec fn canonical<F: RichField>(hash: HashOut<F>) -> bool {
    forall|j: int| 0 <= j < 4 ==> (#[trigger] hash.elements@[j]).value() < GOLDILOCKS_MODULUS
}

/// The words of a hash, as the device holds it in canonical form.
pub open spec fn hash_words<F: RichField>(hash: HashOut<F>) -> Seq<u32> {
    limbs(hash.elements@[0].value()) + limbs(hash.elements@[1].value()) + limbs(
        hash.elements@[2].value(),
    ) + limbs(hash.elements@[3].value())
}

/// Reading a hash back from its words gives the hash.
pub proof fn law_words_give_hashes_back<F: RichField>(hash: HashOut<F>)
    requires
        canonical(hash),
    ensures
        hash_words(hash).len() == WORDS_PER_DIGEST,
        digest_of::<F>(hash_words(hash)) == hash.elements@,
        hash_of::<F>(hash_words(hash)) == hash,
{
    let words = hash_words(hash);
    assert forall|i: int| 0 <= i < 4 implies digest_of::<F>(words)[i]
        == #[trigger] hash.elements@[i] by {
        let value = hash.elements@[i].value();
        assert(words[2 * i] == limbs(value)[0] && words[2 * i + 1] == limbs(value)[1]);
        law_words_give_elements_back(hash.elements@[i]);
    }
    assert(digest_of::<F>(words) =~= hash.elements@);
    assert(hash_of::<F>(words).elements@ =~= hash.elements@);
    assert(hash_of::<F>(words).elements == hash.elements);
}

/// The words of hashes, one hash after the other.
pub open spec fn hashes_words<F: RichField>(hashes: Seq<HashOut<F>>) -> Seq<u32> {
    Seq::new(8 * hashes.len(), |i: int| hash_words(hashes[i / 8])[i % 8])
}

/// Reading a run of hashes back from the words of all of them gives these hashes.
pub proof fn law_words_give_runs_back<F: RichField>(hashes: Seq<HashOut<F>>, from: int, to: int)
    requires
        0 <= from <= to <= hashes.len(),
        forall|i: int| from <= i < to ==> canonical(#[trigger] hashes[i]),
    ensures
        decoded::<F>(hashes_words(hashes).subrange(8 * from, 8 * to)) == hashes.subrange(from, to),
{
    let all = hashes_words(hashes);
    let words = all.subrange(8 * from, 8 * to);
    let run = hashes.subrange(from, to);
    assert forall|i: int| 0 <= i < run.len() implies decoded::<F>(words)[i]
        == #[trigger] run[i] by {
        let part = words.subrange(8 * i, 8 * i + 8);
        let hash = hashes[from + i];
        law_words_give_hashes_back(hash);
        assert forall|k: int| 0 <= k < 8 implies #[trigger] part[k] == hash_words(hash)[k] by {
            let at = 8 * (from + i) + k;
            assert(part[k] == all[at]);
            assert(at / 8 == from + i && at % 8 == k);
        }
        assert(part =~= hash_words(hash));
    }
    assert(decoded::<F>(words) =~= run);
}

// ---------------------------------------------------------------------------------------------
// The upload
// ---------------------------------------------------------------------------------------------

/// The words of two runs of leaves follow one another.
proof fn lemma_rows_join<F: RichField>(one: Seq<Vec<F>>, two: Seq<Vec<F>>, elements_per_leaf: nat)
    ensures
        rows_words(one + two, elements_per_leaf) == rows_words(one, elements_per_leaf)
            + rows_words(two, elements_per_leaf),
    decreases two.len(),
{
    if two.len() == 0 {
        assert(one + two =~= one);
        assert(rows_words(one, elements_per_leaf) + rows_words(two, elements_per_leaf)
            =~= rows_words(one, elements_per_leaf));
    } else {
        lemma_rows_join(one, two.drop_last(), elements_per_leaf);
        assert((one + two).drop_last() =~= one + two.drop_last());
        assert(rows_words(one + two, elements_per_leaf) =~= rows_words(one, elements_per_leaf)
            + rows_words(two, elements_per_leaf));
    }
}

/// The runs of leaves put together are the leaves: the words of the run `index` are those of all
/// leaves from the run's place in the leaf buffer on, four bytes to a word.
pub proof fn law_upload_is_the_leaves<F: RichField>(
    leaves: Seq<Vec<F>>,
    elements_per_leaf: nat,
    index: nat,
)
    requires
        leaves.len() <= usize::MAX,
        leaves.len() * elements_per_leaf * BYTES_PER_BIGINT <= u64::MAX,
        index < chunk_count(leaves.len()),
    ensures
        ({
            let chunk = leaf_chunk(leaves.len(), elements_per_leaf, index);
            let all = rows_words(leaves, elements_per_leaf);
            let at = chunk.offset_bytes as int / 4;
            &&& 4 * all.len() == leaves.len() * elements_per_leaf * BYTES_PER_BIGINT
            &&& chunk.offset_bytes % 4 == 0 && chunk.size_bytes % 4 == 0
            &&& 0 <= at <= at + chunk.size_bytes / 4 <= all.len()
            &&& all.subrange(at, at + chunk.size_bytes / 4) == rows_words(
                leaves.subrange(chunk.start as int, chunk.start + chunk.count),
                elements_per_leaf,
            )
        }),
{
    let chunk = leaf_chunk(leaves.len(), elements_per_leaf, index);
    let e = elements_per_leaf as int;
    law_chunks_cover(leaves.len(), elements_per_leaf, index);
    let start = chunk.start as int;
    let count = chunk.count as int;
    let front = leaves.subrange(0, start);
    let part = leaves.subrange(start, start + count);
    let back = leaves.subrange(start + count, leaves.len() as int);
    assert(leaves =~= (front + part) + back);
    lemma_rows_join(front + part, back, elements_per_leaf);
    lemma_rows_join(front, part, elements_per_leaf);
    lemma_rows_words_len(front, elements_per_leaf);
    lemma_rows_words_len(part, elements_per_leaf);
    lemma_rows_words_len(leaves, elements_per_leaf);
    lemma_rows_words_len(back, elements_per_leaf);
    assert(0 <= start * e && start * e <= leaves.len() * e) by (nonlinear_arith)
        requires
            0 <= e,
            0 <= start <= leaves.len(),
    ;
    let all = rows_words(leaves, elements_per_leaf);
    assert(all.subrange(2 * (start * e), 2 * (start * e) + 2 * (count * e)) =~= rows_words(
        part,
        elements_per_leaf,
    ));
}

/// The words of the element `column` of the leaf `row` are at `2 * (row * width + column)`.
pub proof fn law_elements_are_in_row_order<F: RichField>(
    leaves: Seq<Vec<F>>,
    elements_per_leaf: nat,
    row: int,
    column: int,
)
    requires
        0 <= row < leaves.len(),
        0 <= column < elements_per_leaf,
    ensures
        ({
            let at = 2 * (row * elements_per_leaf + column);
            let all = rows_words(leaves, elements_per_leaf);
            &&& 0 <= at
            &&& at + 2 <= all.len()
            &&& all.subrange(at, at + 2) == limbs(leaves[row]@[column].value())
            &&& all.len() == 2 * (leaves.len() * elements_per_leaf)
            &&& all[at] == leaves[row]@[column].value() % 0x1_0000_0000
            &&& all[at + 1] == leaves[row]@[column].value() / 0x1_0000_0000
        }),
    decreases leaves.len(),
{
    let e = elements_per_leaf as int;
    let at = 2 * (row * e + column);
    let all = rows_words(leaves, elements_per_leaf);
    let last = leaves.len() - 1;
    let front = rows_words(leaves.drop_last(), elements_per_leaf);
    lemma_rows_words_len(leaves, elements_per_leaf);
    lemma_rows_words_len(leaves.drop_last(), elements_per_leaf);
    assert(0 <= row * e && row * e + e <= leaves.len() * e && (last + 1) * e == last * e + e)
        by (nonlinear_arith)
        requires
            0 <= row,
            row + 1 <= leaves.len(),
            0 <= e,
    ;
    if row < last {
        law_elements_are_in_row_order(leaves.drop_last(), elements_per_leaf, row, column);
        assert(all.subrange(at, at + 2) =~= front.subrange(at, at + 2));
    } else {
        let words = row_words(leaves.last()@, elements_per_leaf);
        lemma_row_place(leaves.last()@, elements_per_leaf, column);
        assert(all.subrange(at, at + 2) =~= words.subrange(2 * column, 2 * column + 2));
    }
    law_limbs_in_numbers(leaves[row]@[column].value());
    assert(all[at] == all.subrange(at, at + 2)[0] && all[at + 1] == all.subrange(at, at + 2)[1]);
}

/// The words of the element `column` of a leaf.
proof fn lemma_row_place<F: RichField>(row: Seq<F>, count: nat, column: int)
    requires
        0 <= column < count,
    ensures
        row_words(row, count).len() == 2 * count,
        row_words(row, count).subrange(2 * column, 2 * column + 2) == limbs(row[column].value()),
    decreases count,
{
    let before = row_words(row, (count - 1) as nat);
    let words = row_words(row, count);
    crate::gpu_dispatch::lemma_row_words_len(row, (count - 1) as nat);
    if column < count - 1 {
        lemma_row_place(row, (count - 1) as nat, column);
        assert(words.subrange(2 * column, 2 * column + 2) =~= before.subrange(
            2 * column,
            2 * column + 2,
        ));
    } else {
        assert(words.subrange(2 * column, 2 * column + 2) =~= limbs(row[column].value()));
    }
}

/// The buffers of a schedule are as large as the kernels demand: elements and digests have room,
/// and the arguments of a layer dispatch have the size that the layer kernel reads.
pub proof fn law_buffers_meet_the_bindings(
    plan: MerklePlan,
    schedule: MerkleSchedule,
    endian: Endian,
    args: MerkleTreeKernelArgs,
)
    requires
        plan.wf(),
        schedule.follows(plan),
    ensures
        schedule.leaf_buffer_bytes >= BYTES_PER_BIGINT,
        schedule.leaf_hash.output_bytes >= BYTES_PER_DIGEST,
        schedule.nodes_bytes >= BYTES_PER_DIGEST,
        schedule.cap_bytes >= BYTES_PER_DIGEST,
        bytes_of_words(endian, args.words()).len() == KERNEL_ARGS_BYTES,
{
    lemma_pow2_pos((plan.cap_height + plan.num_layers_to_cap) as nat);
    lemma_pow2_pos(plan.cap_height as nat);
    law_node_count(plan);
    lemma_pow2_unfold((plan.cap_height + 1) as nat);
    lemma_pow2_strictly_increases(
        (plan.cap_height + 1) as nat,
        (plan.cap_height + plan.num_layers_to_cap) as nat,
    );
    let n = plan.num_leaves as int;
    let e = plan.elements_per_leaf as int;
    assert(n * e >= 1) by (nonlinear_arith)
        requires
            n >= 1,
            e >= 1,
    ;
}

} // verus!
