//! The work that the GPU path submits for a planned tree: the leaves that it uploads and every
//! dispatch with its arguments.

use crate::field::RichField;
use crate::gpu_bytes::{
    bytes_of_word, bytes_of_words, law_bytes_give_words_back, word_to_bytes, words_of_bytes,
    words_to_bytes,
};
use crate::gpu_plan::{
    host_layer_offset, host_layer_size, layer_offset, layer_size, MerklePlan, MAX_KERNEL_COUNT,
};
use crate::gpu_words::{field_to_words, limbs, BYTES_PER_BIGINT, BYTES_PER_DIGEST};
use crate::hash_types::NUM_HASH_OUT_ELTS;
use vstd::arithmetic::power2::*;
use vstd::endian::endianness;
use vstd::prelude::*;

verus! {

/// The number of leaves that are uploaded at a time.
pub const CHUNK_SIZE: usize = 1000;

/// The number of threads in a workgroup of the hashing kernels.
pub const WORKGROUP_SIZE: usize = 64;

/// The bound on a dimension of a dispatch.
pub const MAX_DIM: usize = 0x1_0000;

/// The number of rows, and of columns, in a workgroup of the transposing kernel.
pub const TRANSPOSE_BLOCK: usize = 16;

// ---------------------------------------------------------------------------------------------
// Workgroups
// ---------------------------------------------------------------------------------------------

/// The dimensions of a dispatch for `num` threads: one row, unless that would be too long.
pub open spec fn workgroup_dims(num: nat) -> (nat, nat) {
    let blocks = (num + WORKGROUP_SIZE - 1) as nat / WORKGROUP_SIZE as nat;
    let y = if blocks >= MAX_DIM {
        blocks / (MAX_DIM as nat / 2)
    } else {
        1
    };
    ((blocks + y - 1) as nat / y, y)
}

/// Computes the required workgroup sizes in x and y to produce `num` threads.
pub fn compute_workgroups(num: usize) -> (r: (u32, u32))
    requires
        num + WORKGROUP_SIZE - 1 <= usize::MAX,
    ensures
        r.0 == workgroup_dims(num as nat).0 as u32,
        r.1 == workgroup_dims(num as nat).1 as u32,
        num <= 0x10_0000_0000 ==> makes_threads(num as int, r.0 as int, r.1 as int),
        num <= 0x10_0000_0000 ==> r.0 * r.1 * 64 >= num,
{
    proof {
        law_workgroups_cover(num as nat);
    }
    let num_blocks: usize = (num + (WORKGROUP_SIZE - 1)) / WORKGROUP_SIZE;
    let workgroups_y: usize = if num_blocks >= MAX_DIM {
        num_blocks / (MAX_DIM / 2)
    } else {
        1
    };
    let workgroups_x: usize = (num_blocks + (workgroups_y - 1)) / workgroups_y;
    (workgroups_x as u32, workgroups_y as u32)
}

/// A dispatch of `x` times `y` workgroups of 64 threads is the one for `num` threads: it has a
/// thread for each, and one row less would not do. Both dimensions stay below `2^16`. There is one
/// row as long as it is shorter than that, and then one for each `2^15` workgroups.
pub open spec fn makes_threads(num: int, x: int, y: int) -> bool {
    &&& x * y * 64 >= num
    &&& num > 0 ==> (x - 1) * y * 64 < num
    &&& num == 0 ==> x == 0
    &&& 0 <= x < 65536
    &&& 1 <= y < 65536
    &&& num <= 64 * 65535 ==> y == 1
    &&& num > 64 * 65535 ==> 64 * (32768 * y - 1) < num <= 64 * (32768 * (y + 1) - 1)
}

/// The dispatch has a thread for each of the `num` tasks and no column to spare, and neither
/// dimension leaves its range as long as `num` is at most `2^36`.
pub proof fn law_workgroups_cover(num: nat)
    ensures
        workgroup_dims(num).0 * workgroup_dims(num).1 * WORKGROUP_SIZE >= num,
        workgroup_dims(num).0 * workgroup_dims(num).1 * 64 >= num,
        num > 0 ==> (workgroup_dims(num).0 - 1) * workgroup_dims(num).1 * 64 < num,
        workgroup_dims(num).0 < MAX_DIM,
        num <= 0x10_0000_0000 ==> workgroup_dims(num).1 < MAX_DIM,
        num <= 0x10_0000_0000 ==> makes_threads(
            num as int,
            workgroup_dims(num).0 as int,
            workgroup_dims(num).1 as int,
        ),
        num <= 64 * 65535 ==> workgroup_dims(num).1 == 1,
        num > 64 * 65535 ==> workgroup_dims(num).1 == ((num + 63) / 64) / 32768,
{
    let blocks = (num + WORKGROUP_SIZE - 1) as nat / WORKGROUP_SIZE as nat;
    let (x, y) = workgroup_dims(num);
    assert(blocks * WORKGROUP_SIZE >= num);
    assert(num > 0 ==> (blocks - 1) * 64 < num);
    assert(MAX_DIM as nat / 2 == 0x8000);
    assert(y >= 1);
    assert(x * y >= blocks && (x - 1) * y < blocks) by (nonlinear_arith)
        requires
            x == (blocks + y - 1) as nat / y,
            y >= 1,
    ;
    if blocks >= MAX_DIM {
        assert(y == blocks / 0x8000);
        assert(y >= 2);
        assert(blocks < (y + 1) * 0x8000);
        assert(x <= 0xC000) by (nonlinear_arith)
            requires
                x == (blocks + y - 1) as nat / y,
                y >= 2,
                blocks < (y + 1) * 0x8000,
        ;
    } else {
        assert(x == blocks);
    }
}

// ---------------------------------------------------------------------------------------------
// Upload of the leaves
// ---------------------------------------------------------------------------------------------

/// A run of leaves that is uploaded at a time, and where it goes in the leaf buffer.
#[derive(Clone, Copy, Debug, PartialEq, Eq, Structural)]
pub struct LeafChunk {
    /// The first leaf of the run.
    pub start: usize,
    /// The number of leaves in the run.
    pub count: usize,
    pub offset_bytes: u64,
    pub size_bytes: u64,
}

/// The number of runs that `num_leaves` leaves are uploaded in.
pub open spec fn chunk_count(num_leaves: nat) -> nat {
    (num_leaves + CHUNK_SIZE - 1) as nat / CHUNK_SIZE as nat
}

/// The number of leaves in the run `index`.
pub open spec fn chunk_len(num_leaves: nat, index: nat) -> nat {
    if num_leaves - index * CHUNK_SIZE < CHUNK_SIZE {
        (num_leaves - index * CHUNK_SIZE) as nat
    } else {
        CHUNK_SIZE as nat
    }
}

/// The run `index` of `num_leaves` leaves.
pub open spec fn leaf_chunk(num_leaves: nat, elements_per_leaf: nat, index: nat) -> LeafChunk {
    LeafChunk {
        start: (index * CHUNK_SIZE) as usize,
        count: chunk_len(num_leaves, index) as usize,
        offset_bytes: ((index * CHUNK_SIZE) * elements_per_leaf * BYTES_PER_BIGINT) as u64,
        size_bytes: (chunk_len(num_leaves, index) * elements_per_leaf * BYTES_PER_BIGINT) as u64,
    }
}

/// The runs in which the leaves are uploaded.
pub fn leaf_chunks(num_leaves: usize, elements_per_leaf: usize) -> (r: Vec<LeafChunk>)
    requires
        num_leaves * elements_per_leaf * BYTES_PER_BIGINT <= u64::MAX,
    ensures
        r@ == Seq::new(
            chunk_count(num_leaves as nat),
            |i: int| leaf_chunk(num_leaves as nat, elements_per_leaf as nat, i as nat),
        ),
{
    let mut chunks: Vec<LeafChunk> = Vec::new();
    let mut i: usize = 0;
    while i < num_leaves
        invariant
            num_leaves * elements_per_leaf * BYTES_PER_BIGINT <= u64::MAX,
            i < num_leaves ==> i == chunks@.len() * CHUNK_SIZE,
            i >= num_leaves ==> i == num_leaves && chunks@.len() == chunk_count(num_leaves as nat),
            forall|j: int|
                0 <= j < chunks@.len() ==> #[trigger] chunks@[j] == leaf_chunk(
                    num_leaves as nat,
                    elements_per_leaf as nat,
                    j as nat,
                ),
        decreases num_leaves - i,
    {
        let start: usize = i;
        let left: usize = num_leaves - i;
        let upto: usize = if left < CHUNK_SIZE {
            left
        } else {
            CHUNK_SIZE
        };
        proof {
            let e = elements_per_leaf as int;
            assert(start * e <= num_leaves * e && 0 <= start * e && upto * e <= num_leaves * e && 0
                <= upto * e) by (nonlinear_arith)
                requires
                    0 <= e,
                    start <= num_leaves,
                    upto <= num_leaves,
            ;
        }
        let offset_bytes: u64 = (start as u64) * (elements_per_leaf as u64) * 8;
        let size_bytes: u64 = (upto as u64) * (elements_per_leaf as u64) * 8;
        chunks.push(LeafChunk { start, count: upto, offset_bytes, size_bytes });
        i = i + upto;
    }
    assert(chunks@ =~= Seq::new(
        chunk_count(num_leaves as nat),
        |i: int| leaf_chunk(num_leaves as nat, elements_per_leaf as nat, i as nat),
    ));
    chunks
}

/// The words of the first `count` elements of a leaf, each one in canonical form.
pub open spec fn row_words<F: RichField>(row: Seq<F>, count: nat) -> Seq<u32>
    decreases count,
{
    if count == 0 {
        Seq::empty()
    } else {
        row_words(row, (count - 1) as nat) + limbs(row[count - 1].value())
    }
}

/// The words of the first `elements_per_leaf` elements of each leaf, leaf after leaf.
pub open spec fn rows_words<F: RichField>(rows: Seq<Vec<F>>, elements_per_leaf: nat) -> Seq<u32>
    decreases rows.len(),
{
    if rows.len() == 0 {
        Seq::empty()
    } else {
        rows_words(rows.drop_last(), elements_per_leaf) + row_words(
            rows.last()@,
            elements_per_leaf,
        )
    }
}

/// A leaf takes two words per element.
pub proof fn lemma_row_words_len<F: RichField>(row: Seq<F>, count: nat)
    ensures
        row_words(row, count).len() == 2 * count,
    decreases count,
{
    if count > 0 {
        lemma_row_words_len(row, (count - 1) as nat);
    }
}

/// Leaves take two words per element.
pub proof fn lemma_rows_words_len<F: RichField>(rows: Seq<Vec<F>>, elements_per_leaf: nat)
    ensures
        rows_words(rows, elements_per_leaf).len() == 2 * (rows.len() * elements_per_leaf),
    decreases rows.len(),
{
    if rows.len() > 0 {
        lemma_rows_words_len(rows.drop_last(), elements_per_leaf);
        lemma_row_words_len(rows.last()@, elements_per_leaf);
        let n = rows.len() as int;
        let e = elements_per_leaf as int;
        assert((n - 1) * e + e == n * e) by (nonlinear_arith);
    } else {
        assert(0 * elements_per_leaf == 0);
    }
}

/// The words of a run of leaves: for each leaf its first `elements_per_leaf` elements in
/// canonical form.
pub fn chunk_words<F: RichField>(
    leaves: &[Vec<F>],
    start: usize,
    count: usize,
    elements_per_leaf: usize,
) -> (r: Vec<u32>)
    requires
        start + count <= leaves@.len(),
        forall|i: int|
            start <= i < start + count ==> (#[trigger] leaves@[i])@.len() >= elements_per_leaf,
    ensures
        r@ == rows_words(leaves@.subrange(start as int, start + count), elements_per_leaf as nat),
        r@.len() == 2 * (count * elements_per_leaf),
        forall|row: int, column: int|
            #![trigger leaves@[start + row]@[column]]
            0 <= row < count && 0 <= column < elements_per_leaf ==> r@[2 * (row * elements_per_leaf
                + column)] == leaves@[start + row]@[column].value() % 0x1_0000_0000 && r@[2 * (row
                * elements_per_leaf + column) + 1] == leaves@[start + row]@[column].value()
                / 0x1_0000_0000,
{
    let mut words: Vec<u32> = Vec::new();
    let num_leaves: usize = leaves.len();
    let mut i: usize = 0;
    assert(leaves@.subrange(start as int, start as int) =~= Seq::empty());
    while i < count
        invariant
            i <= count,
            num_leaves == leaves@.len(),
            start + count <= num_leaves,
            forall|k: int|
                start <= k < start + count ==> (#[trigger] leaves@[k])@.len() >= elements_per_leaf,
            words@ == rows_words(
                leaves@.subrange(start as int, start + i),
                elements_per_leaf as nat,
            ),
        decreases count - i,
    {
        let leaf: &Vec<F> = &leaves[start + i];
        let ghost before = words@;
        let mut j: usize = 0;
        assert(words@ =~= before + row_words(leaf@, 0));
        while j < elements_per_leaf
            invariant
                j <= elements_per_leaf,
                leaf@.len() >= elements_per_leaf,
                words@ == before + row_words(leaf@, j as nat),
            decreases elements_per_leaf - j,
        {
            let pair: [u32; 2] = field_to_words(&leaf[j]);
            words.push(pair[0]);
            words.push(pair[1]);
            assert(pair@ =~= seq![pair@[0], pair@[1]]);
            j = j + 1;
            assert(words@ =~= before + row_words(leaf@, j as nat));
        }
        proof {
            let next = leaves@.subrange(start as int, start + i + 1);
            assert(next.drop_last() =~= leaves@.subrange(start as int, start + i));
            assert(next.last() == *leaf);
        }
        i = i + 1;
    }
    proof {
        let rows = leaves@.subrange(start as int, start + count);
        lemma_rows_words_len(rows, elements_per_leaf as nat);
        assert forall|row: int, column: int|
            #![trigger leaves@[start + row]@[column]]
            0 <= row < count && 0 <= column < elements_per_leaf implies words@[2 * (row
            * elements_per_leaf + column)] == leaves@[start + row]@[column].value() % 0x1_0000_0000
            && words@[2 * (row * elements_per_leaf + column) + 1] == leaves@[start
            + row]@[column].value() / 0x1_0000_0000 by {
            assert(rows[row] == leaves@[start + row]);
            crate::gpu_laws::law_elements_are_in_row_order(
                rows,
                elements_per_leaf as nat,
                row,
                column,
            );
        }
    }
    words
}

/// What is uploaded for a run of leaves: its words in the byte order of the machine.
pub fn chunk_bytes<F: RichField>(
    leaves: &[Vec<F>],
    start: usize,
    count: usize,
    elements_per_leaf: usize,
) -> (r: Vec<u8>)
    requires
        start + count <= leaves@.len(),
        forall|i: int|
            start <= i < start + count ==> (#[trigger] leaves@[i])@.len() >= elements_per_leaf,
    ensures
        r@ == bytes_of_words(
            endianness(),
            rows_words(leaves@.subrange(start as int, start + count), elements_per_leaf as nat),
        ),
        r@.len() == count * elements_per_leaf * BYTES_PER_BIGINT,
        forall|row: int, column: int|
            #![trigger leaves@[start + row]@[column]]
            0 <= row < count && 0 <= column < elements_per_leaf ==> {
                let words = words_of_bytes(endianness(), r@);
                let at = 2 * (row * elements_per_leaf + column);
                &&& words[at] == leaves@[start + row]@[column].value() % 0x1_0000_0000
                &&& words[at + 1] == leaves@[start + row]@[column].value() / 0x1_0000_0000
            },
{
    let words: Vec<u32> = chunk_words(leaves, start, count, elements_per_leaf);
    proof {
        lemma_rows_words_len(
            leaves@.subrange(start as int, start + count),
            elements_per_leaf as nat,
        );
        law_bytes_give_words_back(endianness(), words@);
    }
    words_to_bytes(words.as_slice())
}

/// The runs follow one another without gap or overlap, from the first leaf to the last, and their
/// bytes from the start of the leaf buffer to its end.
pub proof fn law_chunks_cover(num_leaves: nat, elements_per_leaf: nat, index: nat)
    requires
        num_leaves <= usize::MAX,
        num_leaves * elements_per_leaf * BYTES_PER_BIGINT <= u64::MAX,
        index < chunk_count(num_leaves),
    ensures
        ({
            let chunk = leaf_chunk(num_leaves, elements_per_leaf, index);
            let next = leaf_chunk(num_leaves, elements_per_leaf, index + 1);
            &&& index == 0 ==> chunk.start == 0 && chunk.offset_bytes == 0
            &&& 0 < chunk.count <= CHUNK_SIZE
            &&& chunk.start == 1000 * index
            &&& index + 1 < chunk_count(num_leaves) ==> chunk.count == 1000
            &&& chunk.offset_bytes == chunk.start * elements_per_leaf * 8
            &&& chunk.size_bytes == chunk.count * elements_per_leaf * 8
            &&& 1000 * (chunk_count(num_leaves) - 1) < num_leaves <= 1000 * chunk_count(num_leaves)
            &&& chunk.start + chunk.count <= num_leaves
            &&& chunk.size_bytes == chunk.count * elements_per_leaf * BYTES_PER_BIGINT
            &&& index + 1 < chunk_count(num_leaves) ==> next.start == chunk.start + chunk.count
                && next.offset_bytes == chunk.offset_bytes + chunk.size_bytes
            &&& index + 1 == chunk_count(num_leaves) ==> chunk.start + chunk.count == num_leaves
                && chunk.offset_bytes + chunk.size_bytes == num_leaves * elements_per_leaf
                * BYTES_PER_BIGINT
        }),
{
    let e = elements_per_leaf as int;
    let start = (index * CHUNK_SIZE) as int;
    let count = chunk_len(num_leaves, index) as int;
    let after = ((index + 1) * CHUNK_SIZE) as int;
    assert(start * e + count * e == (start + count) * e && (start + count) * e <= num_leaves * e
        && 0 <= start * e && 0 <= count * e) by (nonlinear_arith)
        requires
            0 <= e,
            0 <= start,
            0 <= count,
            start + count <= num_leaves,
    ;
    if index == 0 {
        assert(start * e == 0) by (nonlinear_arith)
            requires
                start == 0,
        ;
    }
    if index + 1 < chunk_count(num_leaves) {
        assert(after == start + count);
        assert(after <= num_leaves);
    }
}

// ---------------------------------------------------------------------------------------------
// Dispatches
// ---------------------------------------------------------------------------------------------

/// The dispatch that transposes the leaves and brings them into Montgomery form.
#[derive(Clone, Copy, Debug, PartialEq, Eq, Structural)]
pub struct TransposeDispatch {
    pub num_leaves: u32,
    pub elements_per_leaf: u32,
    /// Across columns.
    pub workgroups_x: u32,
    /// Across rows.
    pub workgroups_y: u32,
}

/// The transposing dispatch: a block of rows and columns per workgroup.
pub open spec fn transpose_dispatch_of(
    num_leaves: nat,
    elements_per_leaf: nat,
) -> TransposeDispatch {
    TransposeDispatch {
        num_leaves: num_leaves as u32,
        elements_per_leaf: elements_per_leaf as u32,
        workgroups_x: ((elements_per_leaf + TRANSPOSE_BLOCK - 1) / TRANSPOSE_BLOCK as int) as u32,
        workgroups_y: ((num_leaves + TRANSPOSE_BLOCK - 1) / TRANSPOSE_BLOCK as int) as u32,
    }
}

impl TransposeDispatch {
    /// What the kernel reads as the number of leaves.
    pub fn num_leaves_bytes(&self) -> (r: Vec<u8>)
        ensures
            r@ == bytes_of_word(endianness(), self.num_leaves),
    {
        word_to_bytes(self.num_leaves)
    }

    /// What the kernel reads as the number of elements in a leaf.
    pub fn elements_per_leaf_bytes(&self) -> (r: Vec<u8>)
        ensures
            r@ == bytes_of_word(endianness(), self.elements_per_leaf),
    {
        word_to_bytes(self.elements_per_leaf)
    }
}

/// The dispatch that transposes the leaves and brings them into Montgomery form.
pub fn transpose_dispatch(num_leaves: usize, elements_per_leaf: usize) -> (r: TransposeDispatch)
    requires
        num_leaves <= MAX_KERNEL_COUNT,
        elements_per_leaf <= MAX_KERNEL_COUNT,
    ensures
        r == transpose_dispatch_of(num_leaves as nat, elements_per_leaf as nat),
{
    let workgroups_x: usize = (elements_per_leaf + (TRANSPOSE_BLOCK - 1)) / TRANSPOSE_BLOCK;
    let workgroups_y: usize = (num_leaves + (TRANSPOSE_BLOCK - 1)) / TRANSPOSE_BLOCK;
    TransposeDispatch {
        num_leaves: num_leaves as u32,
        elements_per_leaf: elements_per_leaf as u32,
        workgroups_x: workgroups_x as u32,
        workgroups_y: workgroups_y as u32,
    }
}

/// Workgroups of 16 rows and 16 columns cover the leaves, and none of them is idle.
pub proof fn law_transposing_covers_the_leaves(num_leaves: nat, elements_per_leaf: nat)
    requires
        num_leaves <= 0x7FFF_FFFF,
        elements_per_leaf <= 0x7FFF_FFFF,
    ensures
        ({
            let work = transpose_dispatch_of(num_leaves, elements_per_leaf);
            &&& work.num_leaves == num_leaves
            &&& work.elements_per_leaf == elements_per_leaf
            &&& 16 * (work.workgroups_x - 1) < elements_per_leaf <= 16 * work.workgroups_x
            &&& 16 * (work.workgroups_y - 1) < num_leaves <= 16 * work.workgroups_y
        }),
{
}

/// The dispatch that hashes the leaves.
#[derive(Clone, Copy, Debug, PartialEq, Eq, Structural)]
pub struct LeafHashDispatch {
    /// The size of the buffer for the leaf digests.
    pub output_bytes: u64,
    pub num_leaves: i32,
    pub elements_per_leaf: i32,
    pub workgroups_x: u32,
    pub workgroups_y: u32,
}

/// The leaf hashing dispatch: a thread and a digest per leaf.
pub open spec fn leaf_hash_dispatch_of(
    num_leaves: nat,
    elements_per_leaf: nat,
) -> LeafHashDispatch {
    LeafHashDispatch {
        output_bytes: (num_leaves * BYTES_PER_DIGEST) as u64,
        num_leaves: num_leaves as i32,
        elements_per_leaf: elements_per_leaf as i32,
        workgroups_x: workgroup_dims(num_leaves).0 as u32,
        workgroups_y: workgroup_dims(num_leaves).1 as u32,
    }
}

impl LeafHashDispatch {
    /// What the kernel reads as the number of leaves.
    pub fn num_leaves_bytes(&self) -> (r: Vec<u8>)
        ensures
            r@ == bytes_of_word(endianness(), self.num_leaves as u32),
    {
        word_to_bytes(self.num_leaves as u32)
    }

    /// What the kernel reads as the number of elements in a leaf.
    pub fn elements_per_leaf_bytes(&self) -> (r: Vec<u8>)
        ensures
            r@ == bytes_of_word(endianness(), self.elements_per_leaf as u32),
    {
        word_to_bytes(self.elements_per_leaf as u32)
    }
}

/// The dispatch that hashes the leaves.
pub fn leaf_hash_dispatch(num_leaves: usize, elements_per_leaf: usize) -> (r: LeafHashDispatch)
    requires
        num_leaves <= MAX_KERNEL_COUNT,
        elements_per_leaf <= MAX_KERNEL_COUNT,
    ensures
        r == leaf_hash_dispatch_of(num_leaves as nat, elements_per_leaf as nat),
{
    let (workgroups_x, workgroups_y) = compute_workgroups(num_leaves);
    LeafHashDispatch {
        output_bytes: (num_leaves as u64) * (BYTES_PER_DIGEST as u64),
        num_leaves: num_leaves as i32,
        elements_per_leaf: elements_per_leaf as i32,
        workgroups_x,
        workgroups_y,
    }
}

/// Each leaf has a thread that hashes it, and room for its digest of 32 bytes.
pub proof fn law_leaf_hashing_covers_the_leaves(num_leaves: nat, elements_per_leaf: nat)
    requires
        num_leaves <= 0x7FFF_FFFF,
        elements_per_leaf <= 0x7FFF_FFFF,
    ensures
        ({
            let work = leaf_hash_dispatch_of(num_leaves, elements_per_leaf);
            &&& work.workgroups_x * work.workgroups_y * 64 >= num_leaves
            &&& work.workgroups_x < 65536
            &&& work.workgroups_y < 65536
            &&& makes_threads(
                num_leaves as int,
                work.workgroups_x as int,
                work.workgroups_y as int,
            )
            &&& work.output_bytes == 32 * num_leaves
            &&& work.num_leaves == num_leaves
            &&& work.elements_per_leaf == elements_per_leaf
        }),
{
    law_workgroups_cover(num_leaves);
}

/// Parameters handed to the Merkle tree kernel for a single layer dispatch.
#[derive(Clone, Copy, Debug, PartialEq, Eq, Structural)]
pub struct MerkleTreeKernelArgs {
    pub cap_len: u32,
    pub layer: u32,
    pub src_layer_size: u32,
    pub dst_layer_size: u32,
    pub src_offset: u32,
    pub dst_offset: u32,
    pub write_to_cap: u32,
}

impl MerkleTreeKernelArgs {
    /// The parameters in the order in which the kernel reads them.
    pub open spec fn words(self) -> Seq<u32> {
        seq![
            self.cap_len,
            self.layer,
            self.src_layer_size,
            self.dst_layer_size,
            self.src_offset,
            self.dst_offset,
            self.write_to_cap,
        ]
    }

    /// The parameters as the kernel reads them.
    pub fn to_bytes(&self) -> (r: Vec<u8>)
        ensures
            r@ == bytes_of_words(endianness(), self.words()),
            r@.len() == 28,
            words_of_bytes(endianness(), r@).len() == 7,
            words_of_bytes(endianness(), r@)[0] == self.cap_len,
            words_of_bytes(endianness(), r@)[1] == self.layer,
            words_of_bytes(endianness(), r@)[2] == self.src_layer_size,
            words_of_bytes(endianness(), r@)[3] == self.dst_layer_size,
            words_of_bytes(endianness(), r@)[4] == self.src_offset,
            words_of_bytes(endianness(), r@)[5] == self.dst_offset,
            words_of_bytes(endianness(), r@)[6] == self.write_to_cap,
    {
        let words: [u32; 7] = [
            self.cap_len,
            self.layer,
            self.src_layer_size,
            self.dst_layer_size,
            self.src_offset,
            self.dst_offset,
            self.write_to_cap,
        ];
        assert(words@ =~= self.words());
        proof {
            law_bytes_give_words_back(endianness(), self.words());
        }
        words_to_bytes(words.as_slice())
    }
}

/// The kernel reads the seven parameters in the order in which they are declared.
pub proof fn law_arguments_by_place(args: MerkleTreeKernelArgs)
    ensures
        args.words().len() == 7,
        args.words()[0] == args.cap_len,
        args.words()[1] == args.layer,
        args.words()[2] == args.src_layer_size,
        args.words()[3] == args.dst_layer_size,
        args.words()[4] == args.src_offset,
        args.words()[5] == args.dst_offset,
        args.words()[6] == args.write_to_cap,
{
}

/// The dispatch that computes one layer from the layer below.
#[derive(Clone, Copy, Debug, PartialEq, Eq, Structural)]
pub struct LayerDispatch {
    pub args: MerkleTreeKernelArgs,
    pub workgroups_x: u32,
    pub workgroups_y: u32,
}

/// The dispatch that reads layer `layer` and writes the next one: to its place among the nodes,
/// or to the cap where the next layer is the cap.
pub open spec fn layer_dispatch_of(plan: MerklePlan, layer: nat) -> LayerDispatch {
    let n = plan.num_leaves as nat;
    let last = layer + 1 == plan.num_layers_to_cap;
    LayerDispatch {
        args: MerkleTreeKernelArgs {
            cap_len: plan.cap_len as u32,
            layer: layer as u32,
            src_layer_size: layer_size(n, layer) as u32,
            dst_layer_size: layer_size(n, layer + 1) as u32,
            src_offset: layer_offset(n, layer) as u32,
            dst_offset: if last {
                0
            } else {
                layer_offset(n, layer + 1) as u32
            },
            write_to_cap: if last {
                1
            } else {
                0
            },
        },
        workgroups_x: workgroup_dims(layer_size(n, layer + 1)).0 as u32,
        workgroups_y: workgroup_dims(layer_size(n, layer + 1)).1 as u32,
    }
}

/// Layers below the cap, and their offsets, are no larger than the leaf count.
pub proof fn lemma_layer_bounds(plan: MerklePlan, layer: nat)
    requires
        plan.wf(),
        layer <= plan.num_layers_to_cap,
    ensures
        layer_size(plan.num_leaves as nat, layer) == pow2(
            (plan.cap_height + plan.num_layers_to_cap - layer) as nat,
        ),
        layer_size(plan.num_leaves as nat, layer) <= plan.num_leaves,
        layer_offset(plan.num_leaves as nat, layer) <= plan.num_leaves,
{
    let depth = (plan.cap_height + plan.num_layers_to_cap) as nat;
    crate::gpu_plan::lemma_layer_size(depth, layer);
    crate::util::lemma_pow2_monotone((depth - layer) as nat, depth);
    if layer >= 1 {
        crate::gpu_plan::lemma_layer_offset(depth, layer);
    }
}

/// The dispatch that reads layer `layer` and writes the next one.
pub fn layer_dispatch(plan: &MerklePlan, layer: usize) -> (r: LayerDispatch)
    requires
        plan.wf(),
        layer < plan.num_layers_to_cap,
    ensures
        r == layer_dispatch_of(*plan, layer as nat),
{
    proof {
        lemma_layer_bounds(*plan, layer as nat);
        lemma_layer_bounds(*plan, layer as nat + 1);
        crate::util::lemma_pow2_monotone(
            plan.cap_height as nat,
            (plan.cap_height + plan.num_layers_to_cap) as nat,
        );
    }
    let num_leaves: usize = plan.num_leaves;
    let src_layer_size: usize = host_layer_size(num_leaves, layer);
    let dst_layer_size: usize = host_layer_size(num_leaves, layer + 1);
    let src_offset: usize = if layer == 0 {
        0
    } else {
        host_layer_offset(num_leaves, layer)
    };
    let dst_offset: usize = if layer + 1 < plan.num_layers_to_cap {
        host_layer_offset(num_leaves, layer + 1)
    } else {
        0
    };
    let write_to_cap: bool = layer + 1 == plan.num_layers_to_cap;
    let (workgroups_x, workgroups_y) = compute_workgroups(dst_layer_size);
    LayerDispatch {
        args: MerkleTreeKernelArgs {
            cap_len: plan.cap_len as u32,
            layer: layer as u32,
            src_layer_size: src_layer_size as u32,
            dst_layer_size: dst_layer_size as u32,
            src_offset: src_offset as u32,
            dst_offset: dst_offset as u32,
            write_to_cap: if write_to_cap {
                1
            } else {
                0
            },
        },
        workgroups_x,
        workgroups_y,
    }
}

/// The dispatch that brings a buffer of elements back into canonical form.
#[derive(Clone, Copy, Debug, PartialEq, Eq, Structural)]
pub struct ToCanonicalDispatch {
    /// The number of elements in the buffer.
    pub num: i32,
    pub workgroups_x: u32,
    pub workgroups_y: u32,
}

impl ToCanonicalDispatch {
    /// What the kernel reads as the number of elements.
    pub fn num_bytes(&self) -> (r: Vec<u8>)
        ensures
            r@ == bytes_of_word(endianness(), self.num as u32),
    {
        word_to_bytes(self.num as u32)
    }
}

/// The conversion dispatch: a thread per element, and none for an empty buffer.
pub open spec fn to_canonical_dispatch_of(num: u32) -> Option<ToCanonicalDispatch> {
    if num == 0 {
        None
    } else {
        Some(
            ToCanonicalDispatch {
                num: num as i32,
                workgroups_x: workgroup_dims(num as nat).0 as u32,
                workgroups_y: workgroup_dims(num as nat).1 as u32,
            },
        )
    }
}

/// Each element of the buffer has a thread that converts it; an empty buffer has no dispatch. The
/// kernel reads the number of elements as a signed one.
pub proof fn law_conversion_covers_the_elements(num: u32)
    ensures
        to_canonical_dispatch_of(num) is None <==> num == 0,
        to_canonical_dispatch_of(num) matches Some(work) ==> {
            &&& work.workgroups_x * work.workgroups_y * 64 >= num
            &&& makes_threads(num as int, work.workgroups_x as int, work.workgroups_y as int)
            &&& work.num == if num <= 0x7FFF_FFFF {
                num as int
            } else {
                num - 0x1_0000_0000
            }
        },
{
    law_workgroups_cover(num as nat);
    assert(num > 0x7FFF_FFFF ==> (num as i32) == num - 0x1_0000_0000) by (bit_vector);
}

/// The dispatch that brings a buffer of `num` elements back into canonical form; none where there
/// are no elements.
pub fn to_canonical_dispatch(num: u32) -> (r: Option<ToCanonicalDispatch>)
    requires
        num + WORKGROUP_SIZE - 1 <= usize::MAX,
    ensures
        r == to_canonical_dispatch_of(num),
{
    if num == 0 {
        return None;
    }
    let (workgroups_x, workgroups_y) = compute_workgroups(num as usize);
    Some(ToCanonicalDispatch { num: num as i32, workgroups_x, workgroups_y })
}

// ---------------------------------------------------------------------------------------------
// The whole schedule
// ---------------------------------------------------------------------------------------------

/// Everything that is submitted for a tree, in the order of submission.
pub struct MerkleSchedule {
    /// The size of the buffer that the leaves are uploaded to, and of the transposed one.
    pub leaf_buffer_bytes: u64,
    /// The runs in which the leaves are uploaded.
    pub chunks: Vec<LeafChunk>,
    /// Transposes the leaves and brings them into Montgomery form.
    pub transpose: TransposeDispatch,
    /// Hashes the leaves.
    pub leaf_hash: LeafHashDispatch,
    /// The size of the buffer for the nodes strictly between the leaves and the cap.
    pub nodes_bytes: u64,
    /// The size of the buffer for the cap.
    pub cap_bytes: u64,
    /// Computes the layers from the bottom up.
    pub layers: Vec<LayerDispatch>,
    /// Brings the leaf digests back into canonical form.
    pub leaves_to_canonical: Option<ToCanonicalDispatch>,
    /// Brings the nodes back into canonical form.
    pub nodes_to_canonical: Option<ToCanonicalDispatch>,
}

/// The number of field elements in `count` digests, as a kernel gets it.
pub open spec fn element_count(count: nat) -> u32 {
    (count * NUM_HASH_OUT_ELTS) as u32
}

/// The dispatches that compute the layers of a tree.
pub open spec fn layer_dispatches_of(plan: MerklePlan) -> Seq<LayerDispatch> {
    Seq::new(plan.num_layers_to_cap as nat, |layer: int| layer_dispatch_of(plan, layer as nat))
}

impl MerkleSchedule {
    /// The schedule is the one for the tree that `plan` describes.
    pub open spec fn follows(self, plan: MerklePlan) -> bool {
        let n = plan.num_leaves as nat;
        let width = plan.elements_per_leaf as nat;
        &&& self.leaf_buffer_bytes == n * width * BYTES_PER_BIGINT
        &&& self.chunks@ == Seq::new(
            chunk_count(n),
            |i: int| leaf_chunk(n, width, i as nat),
        )
        &&& self.transpose == transpose_dispatch_of(n, width)
        &&& self.leaf_hash == leaf_hash_dispatch_of(n, width)
        &&& self.nodes_bytes == plan.total_nodes * BYTES_PER_DIGEST
        &&& self.cap_bytes == plan.cap_len * BYTES_PER_DIGEST
        &&& self.layers@ == layer_dispatches_of(plan)
        &&& self.leaves_to_canonical == to_canonical_dispatch_of(element_count(n))
        &&& self.nodes_to_canonical == to_canonical_dispatch_of(
            element_count(plan.total_nodes as nat),
        )
    }
}

/// The dispatches that compute the layers of a tree, from the bottom up.
pub fn layer_dispatches(plan: &MerklePlan) -> (r: Vec<LayerDispatch>)
    requires
        plan.wf(),
    ensures
        r@ == layer_dispatches_of(*plan),
{
    let mut layers: Vec<LayerDispatch> = Vec::with_capacity(plan.num_layers_to_cap);
    let mut layer: usize = 0;
    while layer < plan.num_layers_to_cap
        invariant
            plan.wf(),
            layer <= plan.num_layers_to_cap,
            layers@.len() == layer,
            forall|l: int|
                0 <= l < layer ==> #[trigger] layers@[l] == layer_dispatch_of(*plan, l as nat),
        decreases plan.num_layers_to_cap - layer,
    {
        layers.push(layer_dispatch(plan, layer));
        layer = layer + 1;
    }
    assert(layers@ =~= layer_dispatches_of(*plan));
    layers
}

/// Everything that is submitted for the tree that `plan` describes.
pub fn schedule(plan: &MerklePlan) -> (r: MerkleSchedule)
    requires
        plan.wf(),
        plan.num_leaves * plan.elements_per_leaf * BYTES_PER_BIGINT <= u64::MAX,
        plan.num_leaves * NUM_HASH_OUT_ELTS + WORKGROUP_SIZE <= usize::MAX,
    ensures
        r.follows(*plan),
{
    proof {
        let depth = (plan.cap_height + plan.num_layers_to_cap) as nat;
        lemma_layer_bounds(*plan, plan.num_layers_to_cap as nat);
        crate::util::lemma_pow2_monotone(plan.cap_height as nat, depth);
    }
    let num_leaves: u64 = plan.num_leaves as u64;
    let total_nodes: u64 = plan.total_nodes as u64;
    assert(0 <= num_leaves * plan.elements_per_leaf) by (nonlinear_arith);
    let leaf_elements: u32 = (num_leaves * (NUM_HASH_OUT_ELTS as u64)) as u32;
    let node_elements: u32 = (total_nodes * (NUM_HASH_OUT_ELTS as u64)) as u32;
    MerkleSchedule {
        leaf_buffer_bytes: num_leaves * (plan.elements_per_leaf as u64) * (BYTES_PER_BIGINT as u64),
        chunks: leaf_chunks(plan.num_leaves, plan.elements_per_leaf),
        transpose: transpose_dispatch(plan.num_leaves, plan.elements_per_leaf),
        leaf_hash: leaf_hash_dispatch(plan.num_leaves, plan.elements_per_leaf),
        nodes_bytes: total_nodes * (BYTES_PER_DIGEST as u64),
        cap_bytes: (plan.cap_len as u64) * (BYTES_PER_DIGEST as u64),
        layers: layer_dispatches(plan),
        leaves_to_canonical: to_canonical_dispatch(leaf_elements),
        nodes_to_canonical: to_canonical_dispatch(node_elements),
    }
}

/// There are four elements to a digest; a kernel gets their number modulo `2^32`.
pub proof fn law_digests_have_four_elements(count: nat)
    requires
        4 * count <= u64::MAX,
    ensures
        element_count(count) == (4 * count) % 0x1_0000_0000,
        4 * count <= u32::MAX ==> element_count(count) == 4 * count,
{
    let elements = (4 * count) as u64;
    assert(elements as u32 == elements % 0x1_0000_0000) by (bit_vector);
}

/// What the dispatch of a layer works on, in numbers: it halves the layer, of which there are
/// `2 ** layer` leaves to a node, and has a thread for each node that it writes. A layer between
/// leaves and cap lies behind all layers below it: at the leaf count less twice its own size.
pub proof fn law_layer_dispatches_in_numbers(plan: MerklePlan, layer: nat)
    requires
        plan.wf(),
        layer < plan.num_layers_to_cap,
    ensures
        ({
            let work = layer_dispatch_of(plan, layer);
            let args = work.args;
            let last = layer + 1 == plan.num_layers_to_cap;
            &&& args.cap_len == plan.cap_len
            &&& args.layer == layer
            &&& args.src_layer_size * pow2(layer) == plan.num_leaves
            &&& args.dst_layer_size * pow2(layer + 1) == plan.num_leaves
            &&& layer == 0 ==> args.src_offset == 0
            &&& layer >= 1 ==> args.src_offset == plan.num_leaves - 2 * args.src_layer_size
            &&& last ==> args.dst_offset == 0 && args.write_to_cap == 1
            &&& !last ==> args.dst_offset == plan.num_leaves - 2 * args.dst_layer_size
                && args.write_to_cap == 0
            &&& work.workgroups_x * work.workgroups_y * 64 >= args.dst_layer_size
            &&& makes_threads(
                args.dst_layer_size as int,
                work.workgroups_x as int,
                work.workgroups_y as int,
            )
        }),
{
    let depth = (plan.cap_height + plan.num_layers_to_cap) as nat;
    lemma_layer_bounds(plan, layer);
    lemma_layer_bounds(plan, layer + 1);
    crate::util::lemma_exponent_fits(depth);
    crate::util::lemma_pow2_monotone(plan.cap_height as nat, depth);
    lemma_pow2_adds((depth - layer) as nat, layer);
    lemma_pow2_adds((depth - layer - 1) as nat, layer + 1);
    assert((depth - layer) as nat + layer == depth);
    assert((depth - layer - 1) as nat + (layer + 1) == depth);
    lemma_pow2_unfold((depth - layer) as nat);
    lemma_pow2_unfold((depth - layer + 1) as nat);
    if layer >= 1 {
        crate::gpu_plan::lemma_layer_offset(depth, layer);
    }
    crate::gpu_plan::lemma_layer_offset(depth, layer + 1);
    law_workgroups_cover(layer_size(plan.num_leaves as nat, layer + 1));
}

/// What is submitted for a tree, in numbers: the buffers have eight bytes for each element and 32
/// for each digest, the runs of leaves fill the leaf buffer from start to end, and each dispatch
/// has a thread for each of its tasks.
pub proof fn law_schedules_in_numbers(plan: MerklePlan, work: MerkleSchedule, index: int)
    requires
        plan.wf(),
        work.follows(plan),
    ensures
        ({
            let n = plan.num_leaves as int;
            let width = plan.elements_per_leaf as int;
            let leaf_elements = (4 * n) % 0x1_0000_0000;
            let node_elements = (4 * (n - 2 * plan.cap_len)) % 0x1_0000_0000;
            &&& work.leaf_buffer_bytes == n * width * 8
            &&& work.nodes_bytes == 32 * (n - 2 * plan.cap_len)
            &&& work.cap_bytes == 32 * plan.cap_len
            &&& 1000 * (work.chunks@.len() - 1) < n <= 1000 * work.chunks@.len()
            &&& 0 <= index < work.chunks@.len() ==> {
                let chunk = work.chunks@[index];
                &&& chunk.start == 1000 * index
                &&& chunk.offset_bytes == chunk.start * width * 8
                &&& chunk.size_bytes == chunk.count * width * 8
                &&& chunk.offset_bytes + chunk.size_bytes <= work.leaf_buffer_bytes
                &&& index + 1 < work.chunks@.len() ==> chunk.count == 1000
                    && chunk.offset_bytes + chunk.size_bytes == work.chunks@[index
                    + 1].offset_bytes
                &&& index + 1 == work.chunks@.len() ==> chunk.start + chunk.count == n
                    && chunk.offset_bytes + chunk.size_bytes == work.leaf_buffer_bytes
            }
            &&& work.transpose.num_leaves == n
            &&& work.transpose.elements_per_leaf == width
            &&& 16 * (work.transpose.workgroups_x - 1) < width <= 16 * work.transpose.workgroups_x
            &&& 16 * (work.transpose.workgroups_y - 1) < n <= 16 * work.transpose.workgroups_y
            &&& work.leaf_hash.num_leaves == n
            &&& work.leaf_hash.elements_per_leaf == width
            &&& work.leaf_hash.output_bytes == 32 * n
            &&& work.leaf_hash.workgroups_x * work.leaf_hash.workgroups_y * 64 >= n
            &&& work.leaf_hash.workgroups_x < 65536 && work.leaf_hash.workgroups_y < 65536
            &&& work.layers@.len() == plan.num_layers_to_cap
            &&& 0 <= index < work.layers@.len() ==> {
                let dispatch = work.layers@[index];
                let args = dispatch.args;
                &&& args.layer == index
                &&& args.cap_len == plan.cap_len
                &&& args.src_layer_size * pow2(index as nat) == n
                &&& args.dst_layer_size * pow2((index + 1) as nat) == n
                &&& args.src_offset == if index == 0 {
                    0
                } else {
                    n - 2 * args.src_layer_size
                }
                &&& args.dst_offset == if index + 1 == work.layers@.len() {
                    0
                } else {
                    n - 2 * args.dst_layer_size
                }
                &&& args.write_to_cap == if index + 1 == work.layers@.len() {
                    1int
                } else {
                    0int
                }
                &&& dispatch.workgroups_x * dispatch.workgroups_y * 64 >= args.dst_layer_size
                &&& dispatch.workgroups_x < 65536 && dispatch.workgroups_y < 65536
            }
            &&& work.leaves_to_canonical is None <==> leaf_elements == 0
            &&& (work.leaves_to_canonical matches Some(conversion) ==> {
                &&& conversion.num as int % 0x1_0000_0000 == leaf_elements
                &&& conversion.workgroups_x * conversion.workgroups_y * 64 >= leaf_elements
            })
            &&& work.nodes_to_canonical is None <==> node_elements == 0
            &&& (work.nodes_to_canonical matches Some(conversion) ==> {
                &&& conversion.num as int % 0x1_0000_0000 == node_elements
                &&& conversion.workgroups_x * conversion.workgroups_y * 64 >= node_elements
            })
        }),
{
    let n = plan.num_leaves as nat;
    let width = plan.elements_per_leaf as nat;
    crate::gpu_plan::law_plans_in_numbers(plan);
    law_transposing_covers_the_leaves(n, width);
    law_leaf_hashing_covers_the_leaves(n, width);
    law_digests_have_four_elements(n);
    law_digests_have_four_elements(plan.total_nodes as nat);
    law_conversion_covers_the_elements(element_count(n));
    law_conversion_covers_the_elements(element_count(plan.total_nodes as nat));
    law_chunks_cover(n, width, 0);
    if 0 <= index < work.layers@.len() {
        law_layer_dispatches_in_numbers(plan, index as nat);
    }
    if 0 <= index < work.chunks@.len() {
        law_chunks_cover(n, width, index as nat);
        let e = width as int;
        let end = work.chunks@[index].start + work.chunks@[index].count;
        let start = work.chunks@[index].start as int;
        let count = work.chunks@[index].count as int;
        assert(start * e + count * e == end * e && end * e <= n * e) by (nonlinear_arith)
            requires
                end == start + count,
                end <= n,
                0 <= e,
        ;
    }
}

/// Each dispatch reads the layer that the one before it wrote; the first one reads the leaf
/// digests and the last one writes the cap. What a dispatch writes among the nodes starts where
/// what it reads there ends, and lies within the node buffer.
pub proof fn law_dispatches_chain(plan: MerklePlan, layer: nat)
    requires
        plan.wf(),
        layer < plan.num_layers_to_cap,
    ensures
        ({
            let args = layer_dispatch_of(plan, layer).args;
            let next = layer_dispatch_of(plan, layer + 1).args;
            let last = layer + 1 == plan.num_layers_to_cap;
            &&& args.src_layer_size == 2 * args.dst_layer_size
            &&& layer == 0 ==> args.src_layer_size == plan.num_leaves && args.src_offset == 0
            &&& layer >= 1 ==> args.src_offset + args.src_layer_size <= plan.total_nodes
            &&& !last ==> {
                &&& args.write_to_cap == 0
                &&& next.src_offset == args.dst_offset
                &&& next.src_layer_size == args.dst_layer_size
                &&& args.dst_offset + args.dst_layer_size <= plan.total_nodes
                &&& layer >= 1 ==> args.dst_offset == args.src_offset + args.src_layer_size
            }
            &&& last ==> {
                &&& args.write_to_cap == 1
                &&& args.dst_offset == 0
                &&& args.dst_layer_size == plan.cap_len
                &&& args.src_offset + args.src_layer_size == plan.total_nodes
            }
        }),
{
    let n = plan.num_leaves as nat;
    lemma_layer_bounds(plan, layer);
    lemma_layer_bounds(plan, layer + 1);
    lemma_pow2_unfold((plan.cap_height + plan.num_layers_to_cap - layer) as nat);
    crate::gpu_plan::lemma_offset_grows(n, layer + 1, plan.num_layers_to_cap as nat);
    if layer + 1 < plan.num_layers_to_cap {
        crate::gpu_plan::lemma_offset_grows(n, layer + 2, plan.num_layers_to_cap as nat);
    }
}

} // verus!
