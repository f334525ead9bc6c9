//! The buffers that the kernels bind.

use crate::gpu_words::{
    BYTES_PER_BIGINT, BYTES_PER_DIGEST, POSEIDON_WIDTH, ROUND_CONSTANT_COUNT,
};
use vstd::prelude::*;

verus! {

/// The number of bytes in the arguments of a layer dispatch.
pub const KERNEL_ARGS_BYTES: u64 = 28;

/// The number of bytes in a count that a kernel reads.
pub const COUNT_BYTES: u64 = 4;

/// The number of bytes that a buffer may hold.
pub const MAX_BUFFER_BYTES: u32 = 0x4000_0000;

/// One storage buffer of a kernel.
#[derive(Clone, Copy, Debug, PartialEq, Eq, Structural)]
pub struct StorageBinding {
    pub binding: u32,
    pub read_only: bool,
    /// The least number of bytes that the buffer holds, where there is one.
    pub min_bytes: Option<u64>,
}

/// A buffer that the kernel writes.
pub open spec fn written(binding: u32, min_bytes: Option<u64>) -> StorageBinding {
    StorageBinding { binding, read_only: false, min_bytes }
}

/// A buffer that the kernel only reads.
pub open spec fn read(binding: u32, min_bytes: int) -> StorageBinding {
    StorageBinding { binding, read_only: true, min_bytes: Some(min_bytes as u64) }
}

/// The three buffers with the constants of the Poseidon permutation, bound from `first` on.
pub open spec fn poseidon_bindings(first: u32) -> Seq<StorageBinding> {
    seq![
        read(first, POSEIDON_WIDTH * BYTES_PER_BIGINT),
        read((first + 1) as u32, POSEIDON_WIDTH * BYTES_PER_BIGINT),
        read((first + 2) as u32, ROUND_CONSTANT_COUNT * BYTES_PER_BIGINT),
    ]
}

/// A buffer that the kernel writes.
fn storage(binding: u32, min_bytes: Option<u64>) -> (r: StorageBinding)
    ensures
        r == written(binding, min_bytes),
{
    StorageBinding { binding, read_only: false, min_bytes }
}

/// A buffer that the kernel only reads.
fn read_only_storage(binding: u32, min_bytes: u64) -> (r: StorageBinding)
    ensures
        r == read(binding, min_bytes as int),
{
    StorageBinding { binding, read_only: true, min_bytes: Some(min_bytes) }
}

/// The buffers of the layer kernel: hashed leaves, nodes, cap, arguments of the dispatch, and the
/// Poseidon constants.
pub fn merkle_bindings() -> (r: Vec<StorageBinding>)
    ensures
        r@ == seq![
            written(0, None),
            written(1, None),
            written(2, None),
            read(3, KERNEL_ARGS_BYTES as int),
        ] + poseidon_bindings(4),
        r@.len() == 7,
        r@[0].binding == 0 && !r@[0].read_only && r@[0].min_bytes == None::<u64>,
        r@[1].binding == 1 && !r@[1].read_only && r@[1].min_bytes == None::<u64>,
        r@[2].binding == 2 && !r@[2].read_only && r@[2].min_bytes == None::<u64>,
        r@[3].binding == 3 && r@[3].read_only && r@[3].min_bytes == Some(28u64),
        r@[4].binding == 4 && r@[4].read_only && r@[4].min_bytes == Some(96u64),
        r@[5].binding == 5 && r@[5].read_only && r@[5].min_bytes == Some(96u64),
        r@[6].binding == 6 && r@[6].read_only && r@[6].min_bytes == Some(2880u64),
{
    let mut r: Vec<StorageBinding> = Vec::with_capacity(7);
    r.push(storage(0, None));
    r.push(storage(1, None));
    r.push(storage(2, None));
    r.push(read_only_storage(3, KERNEL_ARGS_BYTES));
    r.push(read_only_storage(4, (POSEIDON_WIDTH * BYTES_PER_BIGINT) as u64));
    r.push(read_only_storage(5, (POSEIDON_WIDTH * BYTES_PER_BIGINT) as u64));
    r.push(read_only_storage(6, (ROUND_CONSTANT_COUNT * BYTES_PER_BIGINT) as u64));
    r
}

/// The buffers of the leaf hashing kernel: digests, transposed elements, leaf count, leaf width,
/// and the Poseidon constants.
pub fn leaf_hash_bindings() -> (r: Vec<StorageBinding>)
    ensures
        r@ == seq![
            written(0, Some(BYTES_PER_DIGEST as u64)),
            written(1, None),
            read(2, COUNT_BYTES as int),
            read(3, COUNT_BYTES as int),
        ] + poseidon_bindings(4),
        r@.len() == 7,
        r@[0].binding == 0 && !r@[0].read_only && r@[0].min_bytes == Some(32u64),
        r@[1].binding == 1 && !r@[1].read_only && r@[1].min_bytes == None::<u64>,
        r@[2].binding == 2 && r@[2].read_only && r@[2].min_bytes == Some(4u64),
        r@[3].binding == 3 && r@[3].read_only && r@[3].min_bytes == Some(4u64),
        r@[4].binding == 4 && r@[4].read_only && r@[4].min_bytes == Some(96u64),
        r@[5].binding == 5 && r@[5].read_only && r@[5].min_bytes == Some(96u64),
        r@[6].binding == 6 && r@[6].read_only && r@[6].min_bytes == Some(2880u64),
{
    let mut r: Vec<StorageBinding> = Vec::with_capacity(7);
    r.push(storage(0, Some(BYTES_PER_DIGEST as u64)));
    r.push(storage(1, None));
    r.push(read_only_storage(2, COUNT_BYTES));
    r.push(read_only_storage(3, COUNT_BYTES));
    r.push(read_only_storage(4, (POSEIDON_WIDTH * BYTES_PER_BIGINT) as u64));
    r.push(read_only_storage(5, (POSEIDON_WIDTH * BYTES_PER_BIGINT) as u64));
    r.push(read_only_storage(6, (ROUND_CONSTANT_COUNT * BYTES_PER_BIGINT) as u64));
    r
}

/// The buffers of the transposing kernel: output, input, leaf count, leaf width.
pub fn transpose_bindings() -> (r: Vec<StorageBinding>)
    ensures
        r@ == seq![
            written(0, Some(BYTES_PER_BIGINT as u64)),
            written(1, Some(BYTES_PER_BIGINT as u64)),
            read(2, COUNT_BYTES as int),
            read(3, COUNT_BYTES as int),
        ],
        r@.len() == 4,
        r@[0].binding == 0 && !r@[0].read_only && r@[0].min_bytes == Some(8u64),
        r@[1].binding == 1 && !r@[1].read_only && r@[1].min_bytes == Some(8u64),
        r@[2].binding == 2 && r@[2].read_only && r@[2].min_bytes == Some(4u64),
        r@[3].binding == 3 && r@[3].read_only && r@[3].min_bytes == Some(4u64),
{
    let mut r: Vec<StorageBinding> = Vec::with_capacity(4);
    r.push(storage(0, Some(BYTES_PER_BIGINT as u64)));
    r.push(storage(1, Some(BYTES_PER_BIGINT as u64)));
    r.push(read_only_storage(2, COUNT_BYTES));
    r.push(read_only_storage(3, COUNT_BYTES));
    r
}

/// The buffers of the kernel that brings elements back into canonical form: the elements, and
/// their number.
pub fn to_canonical_bindings() -> (r: Vec<StorageBinding>)
    ensures
        r@ == seq![written(0, Some(BYTES_PER_BIGINT as u64)), read(1, COUNT_BYTES as int)],
        r@.len() == 2,
        r@[0].binding == 0 && !r@[0].read_only && r@[0].min_bytes == Some(8u64),
        r@[1].binding == 1 && r@[1].read_only && r@[1].min_bytes == Some(4u64),
{
    let mut r: Vec<StorageBinding> = Vec::with_capacity(2);
    r.push(storage(0, Some(BYTES_PER_BIGINT as u64)));
    r.push(read_only_storage(1, COUNT_BYTES));
    r
}

} // verus!
