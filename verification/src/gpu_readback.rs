//! What is read back from the device, and how it becomes the digests of a tree.

use crate::field::RichField;
use crate::gpu_bytes::{bytes_as_words, words_of_bytes};
use crate::gpu_plan::{
    host_layer_size, layer_offset, layer_size, lemma_offset_grows, MerklePlan,
};
use crate::gpu_words::{
    hash_of, law_hashes_in_words, words_to_hash, DigestLengthError, WORDS_PER_DIGEST,
};
use crate::hash_types::HashOut;
use crate::tree_model::{
    forest_layout, lemma_forest_len, lemma_subtree_len, subtree_layout, subtree_len,
};
use crate::util::{lemma_exponent_fits, lemma_pow2_monotone, shift_right, two_power};
use vstd::arithmetic::power2::*;
use vstd::endian::endianness;
use vstd::prelude::*;

verus! {

// ---------------------------------------------------------------------------------------------
// The staging buffer
// ---------------------------------------------------------------------------------------------

/// Which staging buffer is kept from one readback to the next.
#[derive(Clone, Copy, Debug, PartialEq, Eq, Structural)]
pub struct StagingCache {
    /// Whether there is a buffer.
    pub present: bool,
    /// The size of the buffer in bytes.
    pub capacity: u64,
}

impl StagingCache {
    /// No buffer yet.
    pub fn empty() -> (r: Self)
        ensures
            r == (StagingCache { present: false, capacity: 0 }),
    {
        StagingCache { present: false, capacity: 0 }
    }

    /// Makes room for a readback of `size` bytes. Whether a new buffer of that size takes the
    /// place of the one that is kept: where there is none, or where it is too small.
    pub fn reserve(&mut self, size: u64) -> (need_new: bool)
        ensures
            need_new == (!old(self).present || old(self).capacity < size),
            need_new ==> *final(self) == (StagingCache { present: true, capacity: size }),
            !need_new ==> *final(self) == *old(self),
            final(self).present && final(self).capacity >= size,
            old(self).present ==> final(self).capacity >= old(self).capacity,
    {
        let need_new: bool = !self.present || self.capacity < size;
        if need_new {
            self.present = true;
            self.capacity = size;
        }
        need_new
    }
}

// ---------------------------------------------------------------------------------------------
// Sections
// ---------------------------------------------------------------------------------------------

/// The device buffer that a section is copied from.
#[derive(Clone, Copy, Debug, PartialEq, Eq, Structural)]
pub enum SectionSource {
    Leaf,
    Node,
    Cap,
}

/// A part of the staging buffer that holds the digests of one device buffer.
#[derive(Clone, Copy, Debug, PartialEq, Eq, Structural)]
pub struct HashSection {
    pub source: SectionSource,
    pub word_len: usize,
}

/// The section for `count` digests.
pub open spec fn section_of(source: SectionSource, count: nat) -> HashSection {
    HashSection { source, word_len: (count * WORDS_PER_DIGEST) as usize }
}

/// The sections for a tree: leaf digests, nodes if there are any, cap.
pub open spec fn sections_of(plan: MerklePlan) -> Seq<HashSection> {
    let leaf = section_of(SectionSource::Leaf, plan.num_leaves as nat);
    let node = section_of(SectionSource::Node, plan.total_nodes as nat);
    let cap = section_of(SectionSource::Cap, plan.cap_len as nat);
    if plan.total_nodes > 0 {
        seq![leaf, node, cap]
    } else {
        seq![leaf, cap]
    }
}

/// The number of words in the digests of a tree: leaf digests, nodes and cap.
pub open spec fn readback_words(plan: MerklePlan) -> int {
    (plan.num_leaves + plan.total_nodes + plan.cap_len) * WORDS_PER_DIGEST
}

/// The sections for a tree.
pub fn readback_sections(plan: &MerklePlan) -> (r: Vec<HashSection>)
    requires
        readback_words(*plan) <= usize::MAX,
    ensures
        r@ == sections_of(*plan),
        r@.len() == if plan.total_nodes > 0 {
            3nat
        } else {
            2nat
        },
        r@[0].source is Leaf && r@[0].word_len == 8 * plan.num_leaves,
        plan.total_nodes > 0 ==> r@[1].source is Node && r@[1].word_len == 8 * plan.total_nodes,
        r@.last().source is Cap && r@.last().word_len == 8 * plan.cap_len,
{
    let mut sections: Vec<HashSection> = Vec::with_capacity(3);
    sections.push(
        HashSection { source: SectionSource::Leaf, word_len: plan.num_leaves * WORDS_PER_DIGEST },
    );
    if plan.total_nodes > 0 {
        sections.push(
            HashSection {
                source: SectionSource::Node,
                word_len: plan.total_nodes * WORDS_PER_DIGEST,
            },
        );
    }
    sections.push(
        HashSection { source: SectionSource::Cap, word_len: plan.cap_len * WORDS_PER_DIGEST },
    );
    sections
}

/// The number of words in the first `count` sections.
pub open spec fn words_before(sections: Seq<HashSection>, count: nat) -> nat
    decreases count,
{
    if count == 0 {
        0
    } else {
        words_before(sections, (count - 1) as nat) + sections[count - 1].word_len as nat
    }
}

/// The words before a section are those of the sections in front of it.
pub proof fn law_sections_add_up(sections: Seq<HashSection>, count: nat)
    requires
        count < sections.len(),
    ensures
        words_before(sections, 0) == 0,
        words_before(sections, count + 1) == words_before(sections, count)
            + sections[count as int].word_len,
{
}

/// Later sections start no earlier.
proof fn lemma_words_grow(sections: Seq<HashSection>, one: nat, two: nat)
    requires
        one <= two <= sections.len(),
    ensures
        words_before(sections, one) <= words_before(sections, two),
    decreases two,
{
    if one < two {
        lemma_words_grow(sections, one, (two - 1) as nat);
    }
}

/// Where the words of a section lie in the staging buffer.
#[derive(Clone, Copy, Debug, PartialEq, Eq, Structural)]
pub struct SectionCopy {
    pub offset_bytes: u64,
    pub size_bytes: u64,
    pub offset_words: usize,
}

/// The place of the section `index` in the staging buffer: behind the sections before it.
pub open spec fn copy_of(sections: Seq<HashSection>, index: nat) -> SectionCopy {
    SectionCopy {
        offset_bytes: (4 * words_before(sections, index)) as u64,
        size_bytes: (4 * sections[index as int].word_len) as u64,
        offset_words: words_before(sections, index) as usize,
    }
}

/// The places of the sections in the staging buffer, and the number of bytes in all of them.
pub fn section_copies(sections: &[HashSection]) -> (r: (Vec<SectionCopy>, u64))
    requires
        4 * words_before(sections@, sections@.len()) <= usize::MAX,
    ensures
        r.0@ == Seq::new(sections@.len(), |i: int| copy_of(sections@, i as nat)),
        r.1 == 4 * words_before(sections@, sections@.len()),
{
    let mut copies: Vec<SectionCopy> = Vec::with_capacity(sections.len());
    let mut offset_words: usize = 0;
    let mut i: usize = 0;
    while i < sections.len()
        invariant
            i <= sections@.len(),
            copies@.len() == i,
            4 * words_before(sections@, sections@.len()) <= usize::MAX,
            offset_words == words_before(sections@, i as nat),
            forall|j: int|
                0 <= j < i ==> #[trigger] copies@[j] == copy_of(sections@, j as nat),
        decreases sections@.len() - i,
    {
        proof {
            lemma_words_grow(sections@, i as nat + 1, sections@.len());
        }
        let word_len: usize = sections[i].word_len;
        copies.push(
            SectionCopy {
                offset_bytes: (offset_words as u64) * 4,
                size_bytes: (word_len as u64) * 4,
                offset_words,
            },
        );
        offset_words = offset_words + word_len;
        i = i + 1;
    }
    assert(copies@ =~= Seq::new(sections@.len(), |i: int| copy_of(sections@, i as nat)));
    (copies, (offset_words as u64) * 4)
}

/// The sections fill the staging buffer without gap or overlap.
pub proof fn law_sections_are_contiguous(sections: Seq<HashSection>, index: nat)
    requires
        4 * words_before(sections, sections.len()) <= usize::MAX,
        index < sections.len(),
    ensures
        ({
            let copy = copy_of(sections, index);
            let next = copy_of(sections, index + 1);
            &&& index == 0 ==> copy.offset_bytes == 0
            &&& copy.offset_bytes == 4 * copy.offset_words
            &&& copy.size_bytes == 4 * sections[index as int].word_len
            &&& copy.offset_words == words_before(sections, index)
            &&& index + 1 < sections.len() ==> next.offset_bytes == copy.offset_bytes
                + copy.size_bytes
            &&& index + 1 == sections.len() ==> copy.offset_bytes + copy.size_bytes == 4
                * words_before(sections, sections.len())
        }),
{
    lemma_words_grow(sections, index, sections.len());
    lemma_words_grow(sections, index + 1, sections.len());
}

// ---------------------------------------------------------------------------------------------
// Decoding
// ---------------------------------------------------------------------------------------------

/// The hashes that the words spell out, eight words to a hash.
pub open spec fn decoded<F: RichField>(words: Seq<u32>) -> Seq<HashOut<F>> {
    Seq::new(words.len() / 8, |i: int| hash_of::<F>(words.subrange(8 * i, 8 * i + 8)))
}

/// The hash `i` among words has its element `j` at `8 * i + 2 * j`, the low word first.
pub proof fn law_decoded_in_words<F: RichField>(words: Seq<u32>, i: int, j: int)
    requires
        0 <= i < words.len() / 8,
        0 <= j < 4,
    ensures
        decoded::<F>(words).len() == words.len() / 8,
        decoded::<F>(words)[i].elements@[j] == F::of_canonical(
            (words[8 * i + 2 * j] + 0x1_0000_0000 * words[8 * i + 2 * j + 1]) as u64,
        ),
{
    let part = words.subrange(8 * i, 8 * i + 8);
    law_hashes_in_words::<F>(part, j);
    assert(part[2 * j] == words[8 * i + 2 * j] && part[2 * j + 1] == words[8 * i + 2 * j + 1]);
}

/// The hashes that a run of words spells out. Fails where the words do not come in eights, and
/// says how many are left over.
pub fn decode_hashes<F: RichField>(words: &[u32]) -> (r: Result<Vec<HashOut<F>>, DigestLengthError>)
    ensures
        match r {
            Ok(hashes) => {
                &&& words@.len() % 8 == 0
                &&& hashes@ == decoded::<F>(words@)
                &&& words@.len() == 8 * hashes@.len()
                &&& forall|i: int, j: int|
                    0 <= i < hashes@.len() && 0 <= j < 4 ==> #[trigger] hashes@[i].elements@[j]
                        == F::of_canonical(
                        (words@[8 * i + 2 * j] + 0x1_0000_0000 * words@[8 * i + 2 * j + 1]) as u64,
                    )
            },
            Err(e) => words@.len() % 8 != 0 && e.got == words@.len() % 8,
        },
{
    let mut hashes: Vec<HashOut<F>> = Vec::new();
    let total: usize = words.len();
    let mut start: usize = 0;
    while start < total
        invariant
            total == words@.len(),
            start == 8 * hashes@.len(),
            start <= total,
            forall|i: int|
                0 <= i < hashes@.len() ==> #[trigger] hashes@[i] == hash_of::<F>(
                    words@.subrange(8 * i, 8 * i + 8),
                ),
        decreases total - start,
    {
        let end: usize = if total - start < WORDS_PER_DIGEST {
            total
        } else {
            start + WORDS_PER_DIGEST
        };
        let chunk: &[u32] = vstd::slice::slice_subrange(words, start, end);
        match words_to_hash::<F>(chunk) {
            Ok(hash) => {
                hashes.push(hash);
            },
            Err(e) => {
                return Err(e);
            },
        }
        start = end;
    }
    assert(hashes@ =~= decoded::<F>(words@));
    proof {
        assert forall|i: int, j: int|
            0 <= i < hashes@.len() && 0 <= j < 4 implies #[trigger] hashes@[i].elements@[j]
            == F::of_canonical(
            (words@[8 * i + 2 * j] + 0x1_0000_0000 * words@[8 * i + 2 * j + 1]) as u64,
        ) by {
            law_decoded_in_words::<F>(words@, i, j);
        }
    }
    Ok(hashes)
}

/// The words of the section `index`.
pub open spec fn section_words(
    words: Seq<u32>,
    sections: Seq<HashSection>,
    index: nat,
) -> Seq<u32> {
    words.subrange(
        words_before(sections, index) as int,
        words_before(sections, index + 1) as int,
    )
}

/// The words of a section are those from the words before it on, as many as its length says.
pub proof fn law_section_words_by_place(
    words: Seq<u32>,
    sections: Seq<HashSection>,
    index: nat,
    k: int,
)
    requires
        index < sections.len(),
        words_before(sections, sections.len()) <= words.len(),
        0 <= k < sections[index as int].word_len,
    ensures
        section_words(words, sections, index).len() == sections[index as int].word_len,
        section_words(words, sections, index)[k] == words[words_before(sections, index) + k],
{
    lemma_words_grow(sections, index + 1, sections.len());
}

/// The hashes in each section of the words. Fails on the first section whose words do not come in
/// eights, and says how many are left over there.
pub fn decode_sections<F: RichField>(words: &[u32], sections: &[HashSection]) -> (r: Result<
    Vec<Vec<HashOut<F>>>,
    DigestLengthError,
>)
    requires
        words_before(sections@, sections@.len()) <= words@.len(),
    ensures
        match r {
            Ok(results) => {
                &&& results@.len() == sections@.len()
                &&& forall|i: int|
                    0 <= i < sections@.len() ==> (#[trigger] results@[i])@ == decoded::<F>(
                        section_words(words@, sections@, i as nat),
                    )
                &&& forall|j: int|
                    0 <= j < sections@.len() ==> (#[trigger] sections@[j]).word_len % 8 == 0
            },
            Err(e) => exists|i: int|
                {
                    &&& 0 <= i < sections@.len()
                    &&& (#[trigger] sections@[i]).word_len % 8 != 0
                    &&& e.got == sections@[i].word_len % 8
                    &&& forall|j: int|
                        0 <= j < i ==> (#[trigger] sections@[j]).word_len % 8 == 0
                },
        },
{
    let mut results: Vec<Vec<HashOut<F>>> = Vec::with_capacity(sections.len());
    let num_words: usize = words.len();
    let mut start: usize = 0;
    let mut idx: usize = 0;
    while idx < sections.len()
        invariant
            idx <= sections@.len(),
            results@.len() == idx,
            num_words == words@.len(),
            words_before(sections@, sections@.len()) <= num_words,
            start == words_before(sections@, idx as nat),
            forall|i: int|
                0 <= i < idx ==> (#[trigger] results@[i])@ == decoded::<F>(
                    section_words(words@, sections@, i as nat),
                ),
            forall|j: int| 0 <= j < idx ==> (#[trigger] sections@[j]).word_len % 8 == 0,
        decreases sections@.len() - idx,
    {
        proof {
            lemma_words_grow(sections@, idx as nat + 1, sections@.len());
        }
        let end: usize = start + sections[idx].word_len;
        let part: &[u32] = vstd::slice::slice_subrange(words, start, end);
        match decode_hashes::<F>(part) {
            Ok(hashes) => {
                results.push(hashes);
            },
            Err(e) => {
                return Err(e);
            },
        }
        start = end;
        idx = idx + 1;
    }
    Ok(results)
}

// ---------------------------------------------------------------------------------------------
// The layers of the tree
// ---------------------------------------------------------------------------------------------

/// Access to the nodes of a tree by layer, over the three runs of hashes that were read back.
pub struct LayerAccessor<'a, F: RichField> {
    pub leaf_hashes: &'a [HashOut<F>],
    pub node_hashes: &'a [HashOut<F>],
    pub cap_hashes: &'a [HashOut<F>],
    /// Where each layer starts among the nodes.
    pub layer_starts: Vec<usize>,
    pub num_layers_to_cap: usize,
}

/// The node `index` of layer `layer`: a leaf digest, a node, or an entry of the cap.
pub open spec fn layered_node<T>(
    leaf_hashes: Seq<T>,
    node_hashes: Seq<T>,
    cap_hashes: Seq<T>,
    num_layers_to_cap: nat,
    layer: nat,
    index: int,
) -> T {
    if layer == 0 {
        leaf_hashes[index]
    } else if layer < num_layers_to_cap {
        node_hashes[layer_offset(leaf_hashes.len(), layer) + index]
    } else {
        cap_hashes[index]
    }
}

/// The nodes of the layers as a function of layer and index.
pub open spec fn layered_nodes<T>(
    leaf_hashes: Seq<T>,
    node_hashes: Seq<T>,
    cap_hashes: Seq<T>,
    num_layers_to_cap: nat,
) -> spec_fn(nat, int) -> T {
    |layer: nat, index: int|
        layered_node(leaf_hashes, node_hashes, cap_hashes, num_layers_to_cap, layer, index)
}

impl<'a, F: RichField> LayerAccessor<'a, F> {
    /// The layers start one behind the other, as in a tree over `num_leaves` leaves.
    pub open spec fn starts_for(self, num_leaves: nat) -> bool {
        &&& self.layer_starts@.len() == self.num_layers_to_cap
        &&& forall|l: int|
            0 <= l < self.layer_starts@.len() ==> #[trigger] self.layer_starts@[l] == layer_offset(
                num_leaves,
                l as nat,
            )
    }

    /// The node `index` of layer `layer` is there.
    pub open spec fn holds(self, layer: nat, index: int) -> bool {
        &&& 0 <= index
        &&& if layer == 0 {
            index < self.leaf_hashes@.len()
        } else if layer < self.num_layers_to_cap {
            layer < self.layer_starts@.len() && self.layer_starts@[layer as int] + index
                < self.node_hashes@.len()
        } else {
            layer == self.num_layers_to_cap && index < self.cap_hashes@.len()
        }
    }

    /// All nodes below the cap over the `count` leaves from `first` on are there.
    pub open spec fn holds_subtree(self, first: int, count: int) -> bool {
        forall|layer: nat, index: int|
            layer < self.num_layers_to_cap && first <= index * pow2(layer) && (index + 1) * pow2(
                layer,
            ) <= first + count ==> #[trigger] self.holds(layer, index)
    }

    /// The nodes as a function of layer and index.
    pub open spec fn nodes(self) -> spec_fn(nat, int) -> HashOut<F> {
        |layer: nat, index: int|
            if layer == 0 {
                self.leaf_hashes@[index]
            } else if layer < self.num_layers_to_cap {
                self.node_hashes@[self.layer_starts@[layer as int] + index]
            } else {
                self.cap_hashes@[index]
            }
    }

    /// Access to the layers of a tree with the given hashes.
    pub fn new(
        leaf_hashes: &'a [HashOut<F>],
        node_hashes: &'a [HashOut<F>],
        cap_hashes: &'a [HashOut<F>],
        num_leaves: usize,
        num_layers_to_cap: usize,
    ) -> (r: Self)
        requires
            node_hashes@.len() == layer_offset(num_leaves as nat, num_layers_to_cap as nat),
        ensures
            r.leaf_hashes == leaf_hashes,
            r.node_hashes == node_hashes,
            r.cap_hashes == cap_hashes,
            r.num_layers_to_cap == num_layers_to_cap,
            r.starts_for(num_leaves as nat),
    {
        let num_nodes: usize = node_hashes.len();
        let mut layer_starts: Vec<usize> = Vec::with_capacity(num_layers_to_cap);
        if num_layers_to_cap > 0 {
            layer_starts.push(0);
        }
        let mut acc: usize = 0;
        let mut layer: usize = 1;
        while layer < num_layers_to_cap
            invariant
                1 <= layer,
                layer == 1 || layer <= num_layers_to_cap,
                layer_starts@.len() == if num_layers_to_cap == 0 {
                    0
                } else {
                    layer as nat
                },
                acc == layer_offset(num_leaves as nat, layer as nat),
                num_nodes == layer_offset(num_leaves as nat, num_layers_to_cap as nat),
                forall|l: int|
                    0 <= l < layer_starts@.len() ==> #[trigger] layer_starts@[l] == layer_offset(
                        num_leaves as nat,
                        l as nat,
                    ),
            decreases num_layers_to_cap - layer,
        {
            layer_starts.push(acc);
            proof {
                lemma_offset_grows(
                    num_leaves as nat,
                    layer as nat + 1,
                    num_layers_to_cap as nat,
                );
            }
            acc = acc + host_layer_size(num_leaves, layer);
            layer = layer + 1;
        }
        LayerAccessor { leaf_hashes, node_hashes, cap_hashes, layer_starts, num_layers_to_cap }
    }

    /// The node `node_idx` of layer `layer`.
    pub fn node(&self, layer: usize, node_idx: usize) -> (r: &HashOut<F>)
        requires
            self.holds(layer as nat, node_idx as int),
        ensures
            *r == (self.nodes())(layer as nat, node_idx as int),
    {
        if layer == 0 {
            &self.leaf_hashes[node_idx]
        } else if layer < self.num_layers_to_cap {
            let start: usize = self.layer_starts[layer];
            let _num_nodes: usize = self.node_hashes.len();
            &self.node_hashes[start + node_idx]
        } else {
            &self.cap_hashes[node_idx]
        }
    }

    /// The layer that is the cap.
    pub fn cap_layer(&self) -> (r: usize)
        ensures
            r == self.num_layers_to_cap,
    {
        self.num_layers_to_cap
    }
}

/// The first layer above the leaves starts where the nodes do, and each further one behind the one
/// below it.
pub proof fn law_layer_starts_add_up<F: RichField>(
    accessor: LayerAccessor<'_, F>,
    num_leaves: nat,
    layer: int,
)
    requires
        accessor.starts_for(num_leaves),
    ensures
        accessor.layer_starts@.len() == accessor.num_layers_to_cap,
        0 <= layer <= 1 && layer < accessor.num_layers_to_cap ==> accessor.layer_starts@[layer]
            == 0,
        1 <= layer && layer + 1 < accessor.num_layers_to_cap ==> accessor.layer_starts@[layer + 1]
            == accessor.layer_starts@[layer] + layer_size(num_leaves, layer as nat),
{
}

/// Layer zero of an accessor is the leaf digests, the layer at `num_layers_to_cap` above it the
/// cap, and the layers between them lie among the nodes from their starts on.
pub proof fn law_accessor_nodes_by_layer<F: RichField>(
    accessor: LayerAccessor<'_, F>,
    layer: nat,
    index: int,
)
    ensures
        (accessor.nodes())(0, index) == accessor.leaf_hashes@[index],
        0 < layer < accessor.num_layers_to_cap ==> (accessor.nodes())(layer, index)
            == accessor.node_hashes@[accessor.layer_starts@[layer as int] + index],
        0 < layer && layer == accessor.num_layers_to_cap ==> (accessor.nodes())(layer, index)
            == accessor.cap_hashes@[index],
{
}

// ---------------------------------------------------------------------------------------------
// The digests of the tree
// ---------------------------------------------------------------------------------------------

/// A subtree whose digests are still to be written.
#[derive(Clone, Copy, Debug, PartialEq, Eq, Structural)]
pub struct SubtreeFrame {
    /// Where the digests go.
    pub start: usize,
    /// The number of digests.
    pub len: usize,
    /// The first leaf of the subtree.
    pub leaf_offset: usize,
    /// The number of leaves of the subtree.
    pub leaves_len: usize,
    /// The layer of the subtree's root.
    pub layer_index: usize,
}

impl SubtreeFrame {
    /// The index of the subtree's root within its layer.
    pub open spec fn index(self) -> int {
        (self.leaf_offset as nat / pow2(self.layer_index as nat)) as int
    }

    /// The digests go to the place `p`.
    pub open spec fn covers(self, p: int) -> bool {
        self.start <= p < self.start + self.len
    }

    /// The numbers belong to a subtree over some of the `count` leaves from `first` on.
    pub open spec fn wf(self, first: int, count: int) -> bool {
        &&& self.leaf_offset == self.index() * pow2(self.layer_index as nat)
        &&& self.leaves_len == pow2(self.layer_index as nat)
        &&& first <= self.leaf_offset
        &&& self.leaf_offset + self.leaves_len <= first + count
        &&& self.len == subtree_len(self.layer_index as nat)
    }

    /// What the target calls for at the frame's place is the layout of the frame's subtree;
    /// `first` is where the target starts.
    pub open spec fn matches_target<T>(
        self,
        nodes: spec_fn(nat, int) -> T,
        target: Seq<T>,
        first: int,
    ) -> bool {
        &&& first <= self.start
        &&& self.start + self.len <= first + target.len()
        &&& target.subrange(self.start - first, self.start - first + self.len) == subtree_layout(
            nodes,
            self.layer_index as nat,
            self.index(),
        )
    }
}

/// Some frame on the stack has the place `p` to write.
spec fn covered(stack: Seq<SubtreeFrame>, p: int) -> bool {
    exists|j: int| 0 <= j < stack.len() && (#[trigger] stack[j]).covers(p)
}

/// The work left on the stack.
spec fn stack_weight(stack: Seq<SubtreeFrame>) -> nat
    decreases stack.len(),
{
    if stack.len() == 0 {
        0
    } else {
        stack_weight(stack.drop_last()) + stack.last().len as nat + 1
    }
}

/// Pushing a frame adds its places and its weight.
proof fn lemma_push(stack: Seq<SubtreeFrame>, frame: SubtreeFrame)
    ensures
        stack_weight(stack.push(frame)) == stack_weight(stack) + frame.len + 1,
        forall|p: int| covered(stack, p) ==> #[trigger] covered(stack.push(frame), p),
        forall|p: int| frame.covers(p) ==> #[trigger] covered(stack.push(frame), p),
{
    let more = stack.push(frame);
    assert(more.drop_last() =~= stack);
    assert forall|p: int| covered(stack, p) implies #[trigger] covered(more, p) by {
        let j = choose|j: int| 0 <= j < stack.len() && (#[trigger] stack[j]).covers(p);
        assert(more[j].covers(p));
    }
    assert forall|p: int| frame.covers(p) implies #[trigger] covered(more, p) by {
        assert(more[stack.len() as int].covers(p));
    }
}

/// Popping a frame takes away no other frame's places.
proof fn lemma_pop(stack: Seq<SubtreeFrame>)
    requires
        stack.len() > 0,
    ensures
        forall|p: int| #[trigger]
            covered(stack, p) ==> covered(stack.drop_last(), p) || stack.last().covers(p),
{
    let less = stack.drop_last();
    assert forall|p: int| #[trigger] covered(stack, p) implies covered(less, p)
        || stack.last().covers(p) by {
        let j = choose|j: int| 0 <= j < stack.len() && (#[trigger] stack[j]).covers(p);
        if j < less.len() {
            assert(less[j].covers(p));
        }
    }
}

/// The children of a frame's subtree, in numbers.
proof fn lemma_children(frame: SubtreeFrame, first: int, count: int)
    requires
        frame.wf(first, count),
        frame.layer_index > 0,
    ensures
        ({
            let below = (frame.layer_index - 1) as nat;
            let half = frame.leaves_len as nat / 2;
            let k = frame.index();
            &&& 0 <= k
            &&& half == pow2(below)
            &&& frame.leaves_len == 2 * half
            &&& frame.len == 2 * subtree_len(below) + 2
            &&& frame.leaf_offset == (2 * k) * half
            &&& frame.leaf_offset + half == (2 * k + 1) * half
            &&& frame.leaf_offset as nat / pow2(below) == 2 * k
            &&& (frame.leaf_offset + half) as nat / pow2(below) == 2 * k + 1
        }),
{
    let below = (frame.layer_index - 1) as nat;
    let half = pow2(below) as int;
    let k = frame.index();
    lemma_pow2_pos(below);
    lemma_pow2_unfold(frame.layer_index as nat);
    assert(k * (2 * half) == (2 * k) * half && (2 * k) * half + half == (2 * k + 1) * half)
        by (nonlinear_arith);
    vstd::arithmetic::div_mod::lemma_div_by_multiple(2 * k, half);
    vstd::arithmetic::div_mod::lemma_div_by_multiple(2 * k + 1, half);
}

/// The digests of a subtree are those of its left child, the two children, and those of its right
/// child; the frames of the children have their places accordingly.
proof fn lemma_split<T>(
    frame: SubtreeFrame,
    left: SubtreeFrame,
    right: SubtreeFrame,
    nodes: spec_fn(nat, int) -> T,
    target: Seq<T>,
    first: int,
)
    requires
        frame.matches_target(nodes, target, first),
        frame.layer_index > 0,
        left.layer_index == frame.layer_index - 1,
        right.layer_index == frame.layer_index - 1,
        left.len == subtree_len(left.layer_index as nat),
        right.len == subtree_len(left.layer_index as nat),
        frame.len == 2 * left.len + 2,
        left.start == frame.start,
        right.start == frame.start + left.len + 2,
        left.index() == 2 * frame.index(),
        right.index() == 2 * frame.index() + 1,
    ensures
        left.matches_target(nodes, target, first),
        right.matches_target(nodes, target, first),
        target[frame.start + left.len - first] == nodes(
            left.layer_index as nat,
            2 * frame.index(),
        ),
        target[frame.start + left.len + 1 - first] == nodes(
            left.layer_index as nat,
            2 * frame.index() + 1,
        ),
{
    let below = left.layer_index as nat;
    let k = frame.index();
    let layout = subtree_layout(nodes, frame.layer_index as nat, k);
    let at = frame.start - first;
    let n = left.len as int;
    lemma_subtree_len(nodes, below, 2 * k);
    lemma_subtree_len(nodes, below, 2 * k + 1);
    assert(layout == target.subrange(at, at + frame.len));
    assert(target.subrange(at, at + n) =~= layout.subrange(0, n));
    assert(layout.subrange(0, n) =~= subtree_layout(nodes, below, 2 * k));
    assert(target.subrange(at + n + 2, at + n + 2 + n) =~= layout.subrange(n + 2, n + 2 + n));
    assert(layout.subrange(n + 2, n + 2 + n) =~= subtree_layout(nodes, below, 2 * k + 1));
    assert(target[at + n] == layout[n]);
    assert(target[at + n + 1] == layout[n + 1]);
}

/// A layer has at least as many nodes as there are whole subtrees below it.
proof fn lemma_layer_size_at_least(num_leaves: nat, layer: nat)
    ensures
        num_leaves / pow2(layer) <= layer_size(num_leaves, layer),
    decreases layer,
{
    lemma2_to64();
    if layer == 0 {
        assert(num_leaves / 1 == num_leaves);
    } else if layer > 1 {
        let below = (layer - 1) as nat;
        lemma_layer_size_at_least(num_leaves, below);
        crate::util::lemma_div_pow2_twice(num_leaves, below, 1);
    }
}

/// Nodes whose leaves exist, exist in the layers.
proof fn lemma_node_exists(num_leaves: nat, num_layers_to_cap: nat, layer: nat, index: int)
    requires
        layer < num_layers_to_cap,
        0 <= index,
        (index + 1) * pow2(layer) <= num_leaves,
    ensures
        index < layer_size(num_leaves, layer),
        0 < layer ==> layer_offset(num_leaves, layer) + index < layer_offset(
            num_leaves,
            num_layers_to_cap,
        ),
{
    let size = pow2(layer) as int;
    lemma_pow2_pos(layer);
    lemma_layer_size_at_least(num_leaves, layer);
    vstd::arithmetic::div_mod::lemma_div_is_ordered((index + 1) * size, num_leaves as int, size);
    vstd::arithmetic::div_mod::lemma_div_by_multiple(index + 1, size);
    lemma_offset_grows(num_leaves, layer + 1, num_layers_to_cap);
}

/// An accessor to all nodes of a tree holds every subtree, whatever the number of leaves.
pub proof fn law_accessors_hold_their_subtrees<F: RichField>(
    accessor: LayerAccessor<'_, F>,
    first: int,
    count: int,
)
    requires
        accessor.starts_for(accessor.leaf_hashes@.len()),
        accessor.node_hashes@.len() == layer_offset(
            accessor.leaf_hashes@.len(),
            accessor.num_layers_to_cap as nat,
        ),
        0 <= first,
        first + count <= accessor.leaf_hashes@.len(),
    ensures
        accessor.holds_subtree(first, count),
{
    let num_leaves = accessor.leaf_hashes@.len();
    let layers = accessor.num_layers_to_cap as nat;
    assert forall|layer: nat, index: int|
        layer < layers && first <= index * pow2(layer) && (index + 1) * pow2(layer) <= first
            + count implies #[trigger] accessor.holds(layer, index) by {
        let size = pow2(layer) as int;
        lemma_pow2_pos(layer);
        assert(0 <= index) by (nonlinear_arith)
            requires
                0 <= index * size,
                0 < size,
        ;
        lemma_node_exists(num_leaves, layers, layer, index);
    }
}

/// Writes the digests below a node of the cap to `digests[start..start + len]`: those of the
/// subtree with `subtree_leaves_len` leaves from `leaf_offset` on, in the order of
/// `MerkleTree::digests`.
pub fn write_subtree_chunk_from_gpu<F: RichField>(
    digests: &mut Vec<HashOut<F>>,
    start: usize,
    len: usize,
    accessor: &LayerAccessor<'_, F>,
    leaf_offset: usize,
    subtree_leaves_len: usize,
)
    requires
        accessor.holds_subtree(leaf_offset as int, subtree_leaves_len as int),
        start + len <= old(digests)@.len(),
        len == subtree_len(accessor.num_layers_to_cap as nat),
        subtree_leaves_len == pow2(accessor.num_layers_to_cap as nat),
        leaf_offset % subtree_leaves_len == 0,
    ensures
        final(digests)@.len() == old(digests)@.len(),
        forall|p: int|
            0 <= p < old(digests)@.len() && !(start <= p < start + len) ==>
                #[trigger] final(digests)@[p] == old(digests)@[p],
        final(digests)@.subrange(start as int, start + len) == subtree_layout(
            accessor.nodes(),
            accessor.num_layers_to_cap as nat,
            (leaf_offset as nat / pow2(accessor.num_layers_to_cap as nat)) as int,
        ),
{
    let ghost nodes = accessor.nodes();
    let ghost layers = accessor.num_layers_to_cap as nat;
    let ghost first = leaf_offset as int;
    let ghost count = subtree_leaves_len as int;
    let ghost target = subtree_layout(
        nodes,
        layers,
        (leaf_offset as nat / pow2(layers)) as int,
    );
    let ghost before = digests@;
    proof {
        lemma_subtree_len(nodes, layers, (leaf_offset as nat / pow2(layers)) as int);
        lemma_pow2_pos(layers);
        vstd::arithmetic::div_mod::lemma_fundamental_div_mod(
            leaf_offset as int,
            pow2(layers) as int,
        );
        vstd::arithmetic::mul::lemma_mul_is_commutative(
            pow2(layers) as int,
            (leaf_offset as nat / pow2(layers)) as int,
        );
    }
    if len == 0 {
        assert(digests@.subrange(start as int, start + len) =~= target);
        return ;
    }
    let frame = SubtreeFrame {
        start,
        len,
        leaf_offset,
        leaves_len: subtree_leaves_len,
        layer_index: accessor.cap_layer(),
    };
    let mut stack: Vec<SubtreeFrame> = Vec::new();
    stack.push(frame);
    let num_leaf_hashes: usize = accessor.leaf_hashes.len();
    let num_digests: usize = digests.len();
    proof {
        // The last leaf of the subtree is there, so that its place fits.
        lemma2_to64();
        assert((first + count - 1) * pow2(0) == first + count - 1 && (first + count - 1 + 1) * pow2(
            0,
        ) == first + count) by (nonlinear_arith)
            requires
                pow2(0) == 1,
        ;
        assert(accessor.holds(0, first + count - 1));
        lemma_exponent_fits(layers);
        assert(target.subrange(0, len as int) =~= target);
        lemma_push(Seq::empty(), frame);
        assert(Seq::<SubtreeFrame>::empty().push(frame) =~= stack@);
    }
    while stack.len() > 0
        invariant
            accessor.holds_subtree(first, count),
            nodes == accessor.nodes(),
            first + count <= num_leaf_hashes,
            layers == accessor.num_layers_to_cap,
            layers < usize::BITS,
            target.len() == len,
            before.len() == digests@.len(),
            start + len <= digests@.len(),
            digests@.len() == num_digests,
            forall|p: int|
                0 <= p < before.len() && !(start <= p < start + len) ==> #[trigger] digests@[p]
                    == before[p],
            forall|j: int|
                0 <= j < stack@.len() ==> (#[trigger] stack@[j]).wf(first, count)
                    && stack@[j].layer_index <= layers && stack@[j].matches_target(
                    nodes,
                    target,
                    start as int,
                ),
            forall|p: int|
                start <= p < start + len ==> #[trigger] digests@[p] == target[p - start] || covered(
                    stack@,
                    p,
                ),
        decreases stack_weight(stack@),
    {
        let ghost full = stack@;
        let ghost was = digests@;
        let frame: SubtreeFrame = match stack.pop() {
            Some(frame) => frame,
            None => {
                return ;
            },
        };
        let ghost rest = stack@;
        proof {
            assert(rest =~= full.drop_last());
            lemma_pop(full);
        }
        if frame.leaves_len > 1 && frame.len > 0 {
            proof {
                lemma2_to64();
                lemma_children(frame, first, count);
                let below = (frame.layer_index - 1) as nat;
                let half = pow2(below) as int;
                let k = frame.index();
                lemma_pow2_pos(below);
                assert((2 * k + 1 + 1) * half == (2 * k + 1) * half + half && (2 * k + 1) * half
                    <= (2 * k + 1 + 1) * half) by (nonlinear_arith)
                    requires
                        0 <= half,
                ;
                assert(accessor.holds(below, 2 * k));
                assert(accessor.holds(below, 2 * k + 1));
            }
            let half_leaves: usize = frame.leaves_len / 2;
            let chunk_half: usize = frame.len / 2;
            let left_slot: usize = frame.start + (chunk_half - 1);
            let right_slot: usize = frame.start + chunk_half;
            let child_layer: usize = frame.layer_index - 1;

            let left_node_idx: usize = shift_right(frame.leaf_offset, child_layer);
            let right_leaf_offset: usize = frame.leaf_offset + half_leaves;
            let right_node_idx: usize = shift_right(right_leaf_offset, child_layer);

            digests.set(left_slot, *accessor.node(child_layer, left_node_idx));
            digests.set(right_slot, *accessor.node(child_layer, right_node_idx));

            let child_len: usize = chunk_half - 1;
            let left = SubtreeFrame {
                start: frame.start,
                len: child_len,
                leaf_offset: frame.leaf_offset,
                leaves_len: half_leaves,
                layer_index: child_layer,
            };
            let right = SubtreeFrame {
                start: right_slot + 1,
                len: child_len,
                leaf_offset: right_leaf_offset,
                leaves_len: half_leaves,
                layer_index: child_layer,
            };
            proof {
                lemma_split(frame, left, right, nodes, target, start as int);
            }
            if child_len > 0 {
                stack.push(right);
                stack.push(left);
                proof {
                    lemma_push(rest, right);
                    lemma_push(rest.push(right), left);
                    assert(stack@ =~= rest.push(right).push(left));
                }
            }
            assert forall|p: int| start <= p < start + len implies #[trigger] digests@[p]
                == target[p - start] || covered(stack@, p) by {
                if was[p] == target[p - start] {
                } else {
                    assert(covered(full, p));
                    if frame.covers(p) && p != left_slot && p != right_slot {
                        assert(left.covers(p) || right.covers(p));
                        if child_len > 0 {
                            if right.covers(p) {
                                assert(covered(rest.push(right), p));
                            }
                        }
                    } else if !frame.covers(p) {
                        assert(covered(rest, p));
                        if child_len > 0 {
                            assert(covered(rest.push(right), p));
                        }
                    }
                }
            }
        } else {
            proof {
                lemma2_to64();
                lemma_pow2_pos(frame.layer_index as nat);
            }
        }
    }
    assert forall|p: int| start <= p < start + len implies #[trigger] digests@[p] == target[p
        - start] by {
        assert(!covered(stack@, p));
    }
    assert(digests@.subrange(start as int, start + len) =~= target);
}

/// GPU Merkle output that mirrors the CPU layout.
#[derive(Debug)]
pub struct GpuMerkleOutput<F: RichField> {
    pub digests: Vec<HashOut<F>>,
    pub cap: Vec<HashOut<F>>,
}

/// The output for the tree that `plan` describes, from the hashes of its leaves, nodes and cap.
pub fn assemble_output<F: RichField>(
    plan: &MerklePlan,
    leaf_hashes: &[HashOut<F>],
    node_hashes: &[HashOut<F>],
    cap_hashes: Vec<HashOut<F>>,
) -> (r: GpuMerkleOutput<F>)
    requires
        plan.shaped(),
        leaf_hashes@.len() == plan.num_leaves,
        node_hashes@.len() == plan.total_nodes,
        cap_hashes@.len() == plan.cap_len,
    ensures
        r.cap@ == cap_hashes@,
        r.digests@ == forest_layout(
            layered_nodes(
                leaf_hashes@,
                node_hashes@,
                cap_hashes@,
                plan.num_layers_to_cap as nat,
            ),
            plan.num_layers_to_cap as nat,
            plan.cap_len as nat,
        ),
{
    let ghost layers = plan.num_layers_to_cap as nat;
    let ghost count = plan.cap_len as int;
    let ghost depth = (plan.cap_height + plan.num_layers_to_cap) as nat;
    let ghost size = pow2(layers) as int;
    let ghost chunk = subtree_len(layers) as int;
    let ghost nodes = layered_nodes(leaf_hashes@, node_hashes@, cap_hashes@, layers);
    let num_leaves: usize = leaf_hashes.len();
    proof {
        lemma_exponent_fits(depth);
        lemma_pow2_monotone(plan.cap_height as nat, depth);
        lemma_pow2_pos(layers);
        lemma_pow2_pos(plan.cap_height as nat);
        lemma_pow2_adds(layers, plan.cap_height as nat);
        assert(2 * (size * count - count) == chunk * count && count * chunk == chunk * count)
            by (nonlinear_arith)
            requires
                chunk == 2 * (size - 1),
        ;
        vstd::arithmetic::div_mod::lemma_div_by_multiple(chunk, count);
        vstd::arithmetic::div_mod::lemma_div_by_multiple(size, count);
        lemma_forest_len(nodes, layers, plan.cap_len as nat);
    }
    let num_digests: usize = 2 * (plan.num_leaves - two_power(plan.cap_height));
    let mut digests: Vec<HashOut<F>> = Vec::new();
    if num_digests > 0 {
        digests = vec![HashOut::<F>::zero(); num_digests];
        let accessor = LayerAccessor::new(
            leaf_hashes,
            node_hashes,
            cap_hashes.as_slice(),
            num_leaves,
            plan.num_layers_to_cap,
        );
        assert(accessor.nodes() =~= nodes);
        let subtree_digests_len: usize = shift_right(num_digests, plan.cap_height);
        let subtree_leaves_len: usize = shift_right(plan.num_leaves, plan.cap_height);
        let mut subtree_idx: usize = 0;
        assert(digests@.subrange(0, 0) =~= Seq::empty());
        while subtree_idx < plan.cap_len
            invariant
                subtree_idx <= plan.cap_len,
                count == plan.cap_len,
                accessor.starts_for(num_leaves as nat),
                accessor.nodes() == nodes,
                accessor.num_layers_to_cap == layers,
                accessor.leaf_hashes@.len() == num_leaves,
                accessor.node_hashes@.len() == layer_offset(num_leaves as nat, layers),
                size == pow2(layers),
                size > 0,
                num_leaves == size * count,
                chunk == subtree_len(layers),
                num_digests == chunk * count,
                subtree_digests_len == chunk,
                subtree_leaves_len == size,
                digests@.len() == num_digests,
                digests@.subrange(0, chunk * subtree_idx) == forest_layout(
                    nodes,
                    layers,
                    subtree_idx as nat,
                ),
            decreases plan.cap_len - subtree_idx,
        {
            let ghost i = subtree_idx as int;
            let ghost was = digests@;
            proof {
                assert(0 <= chunk * i && chunk * (i + 1) == chunk * i + chunk && chunk * (i + 1)
                    <= chunk * count && 0 <= size * i && size * i + size <= size * count && i * size
                    == size * i && i * chunk == chunk * i) by (nonlinear_arith)
                    requires
                        0 <= i,
                        i + 1 <= count,
                        0 <= chunk,
                        0 <= size,
                ;
                vstd::arithmetic::div_mod::lemma_div_by_multiple(i, size);
                vstd::arithmetic::div_mod::lemma_mod_multiples_basic(i, size);
                law_accessors_hold_their_subtrees(accessor, size * i, size);
            }
            let leaf_offset: usize = subtree_idx * subtree_leaves_len;
            write_subtree_chunk_from_gpu(
                &mut digests,
                subtree_idx * subtree_digests_len,
                subtree_digests_len,
                &accessor,
                leaf_offset,
                subtree_leaves_len,
            );
            proof {
                let now = digests@;
                assert(now.subrange(0, chunk * i) =~= was.subrange(0, chunk * i));
                assert(now.subrange(0, chunk * (i + 1)) =~= now.subrange(0, chunk * i)
                    + now.subrange(chunk * i, chunk * i + chunk));
            }
            subtree_idx = subtree_idx + 1;
        }
        assert(digests@.subrange(0, chunk * count) =~= digests@);
    } else {
        assert(digests@ =~= forest_layout(nodes, layers, plan.cap_len as nat));
    }
    GpuMerkleOutput { digests, cap: cap_hashes }
}

/// The leaf digests among the words that were read back.
pub open spec fn leaf_part<F: RichField>(plan: MerklePlan, words: Seq<u32>) -> Seq<HashOut<F>> {
    decoded(words.subrange(0, 8 * plan.num_leaves))
}

/// The nodes among the words that were read back.
pub open spec fn node_part<F: RichField>(plan: MerklePlan, words: Seq<u32>) -> Seq<HashOut<F>> {
    decoded(words.subrange(8 * plan.num_leaves, 8 * (plan.num_leaves + plan.total_nodes)))
}

/// The cap among the words that were read back.
pub open spec fn cap_part<F: RichField>(plan: MerklePlan, words: Seq<u32>) -> Seq<HashOut<F>> {
    decoded(
        words.subrange(8 * (plan.num_leaves + plan.total_nodes), readback_words(plan)),
    )
}

impl<F: RichField> GpuMerkleOutput<F> {
    /// The output is the one for the tree that `plan` describes and the words that were read
    /// back: the cap is among them, and the digests are those of the layers in the order of
    /// `MerkleTree::digests`.
    pub open spec fn is_output_of(self, plan: MerklePlan, words: Seq<u32>) -> bool {
        &&& self.cap@ == cap_part::<F>(plan, words)
        &&& self.digests@ == forest_layout(
            layered_nodes(
                leaf_part::<F>(plan, words),
                node_part::<F>(plan, words),
                cap_part::<F>(plan, words),
                plan.num_layers_to_cap as nat,
            ),
            plan.num_layers_to_cap as nat,
            plan.cap_len as nat,
        )
    }
}

/// The sections of a tree hold its words one behind the other.
pub proof fn lemma_planned_sections(plan: MerklePlan)
    requires
        readback_words(plan) <= usize::MAX,
    ensures
        words_before(sections_of(plan), sections_of(plan).len()) == readback_words(plan),
        words_before(sections_of(plan), 1) == 8 * plan.num_leaves,
        plan.total_nodes > 0 ==> words_before(sections_of(plan), 2) == 8 * (plan.num_leaves
            + plan.total_nodes),
{
    reveal_with_fuel(words_before, 4);
}

/// The output for the tree that `plan` describes, from the words that were read back.
pub fn output_from_words<F: RichField>(plan: &MerklePlan, words: &[u32]) -> (r: Result<
    GpuMerkleOutput<F>,
    DigestLengthError,
>)
    requires
        plan.shaped(),
        readback_words(*plan) <= words@.len(),
    ensures
        match r {
            Ok(output) => output.is_output_of(*plan, words@),
            Err(_) => false,
        },
{
    let num_words: usize = words.len();
    proof {
        lemma_planned_sections(*plan);
    }
    let sections: Vec<HashSection> = readback_sections(plan);
    let mut results: Vec<Vec<HashOut<F>>> = match decode_sections::<F>(words, sections.as_slice()) {
        Ok(results) => results,
        Err(e) => {
            return Err(e);
        },
    };
    let mut cap_hashes: Vec<HashOut<F>> = Vec::new();
    let mut node_hashes: Vec<HashOut<F>> = Vec::new();
    let mut leaf_hashes: Vec<HashOut<F>> = Vec::new();
    if plan.total_nodes > 0 {
        std::mem::swap(&mut leaf_hashes, &mut results[0]);
        std::mem::swap(&mut node_hashes, &mut results[1]);
        std::mem::swap(&mut cap_hashes, &mut results[2]);
    } else {
        std::mem::swap(&mut leaf_hashes, &mut results[0]);
        std::mem::swap(&mut cap_hashes, &mut results[1]);
        assert(node_hashes@ =~= node_part::<F>(*plan, words@));
    }
    Ok(assemble_output(plan, leaf_hashes.as_slice(), node_hashes.as_slice(), cap_hashes))
}

/// The output for the tree that `plan` describes, from the bytes of the mapped staging buffer;
/// `None` where these are no whole number of words.
pub fn output_from_bytes<F: RichField>(plan: &MerklePlan, bytes: &[u8]) -> (r: Option<
    GpuMerkleOutput<F>,
>)
    requires
        plan.shaped(),
        4 * readback_words(*plan) <= bytes@.len(),
    ensures
        r is Some <==> bytes@.len() % 4 == 0,
        r matches Some(output) ==> output.is_output_of(
            *plan,
            words_of_bytes(endianness(), bytes@),
        ),
{
    match bytes_as_words(bytes) {
        Some(words) => match output_from_words::<F>(plan, words.as_slice()) {
            Ok(output) => Some(output),
            Err(_) => None,
        },
        None => None,
    }
}

} // verus!
