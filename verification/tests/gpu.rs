use merkle_forest::field::{GoldilocksField, RichField};
use merkle_forest::gpu_bindings::{
    leaf_hash_bindings, merkle_bindings, to_canonical_bindings, transpose_bindings, StorageBinding,
};
use merkle_forest::gpu_bytes::words_to_bytes;
use merkle_forest::gpu_dispatch::{
    chunk_bytes, chunk_words, compute_workgroups, layer_dispatch, leaf_chunks, schedule,
    to_canonical_dispatch, transpose_dispatch, LeafChunk, MerkleTreeKernelArgs,
};
use merkle_forest::gpu_plan::{
    host_layer_offset, host_layer_size, leaf_info, plan_merkle_tree, plan_shape, MerklePlan,
    PlanError,
};
use merkle_forest::gpu_readback::{
    assemble_output, decode_hashes, decode_sections, output_from_bytes, output_from_words,
    readback_sections, section_copies, write_subtree_chunk_from_gpu, HashSection, LayerAccessor,
    SectionCopy, SectionSource, StagingCache,
};
use merkle_forest::gpu_words::{field_to_words, DigestLengthError};
use merkle_forest::hash_types::{GenericHashOut, HashOut, Hasher};
use merkle_forest::merkle_proofs::verify_merkle_proof_to_cap;
use merkle_forest::merkle_tree::{fill_subtree, tries_gpu, GpuAttempt, MerkleTree};

type F = GoldilocksField;

/// A small mixing hash over Goldilocks elements.
#[derive(Clone, Copy, Debug, PartialEq, Eq)]
struct ShiftHash;

fn absorb(state: &mut [u64; 4], value: u64) {
    for (i, word) in state.iter_mut().enumerate() {
        *word = (word.rotate_left(29 + i as u32) ^ value)
            .wrapping_mul(0xD6E8_FEB8_6659_FD93)
            .wrapping_add(2 * i as u64 + 1);
    }
}

fn squeeze(state: [u64; 4]) -> HashOut<F> {
    HashOut { elements: state.map(F::from_canonical_u64) }
}

impl Hasher<F> for ShiftHash {
    type Hash = HashOut<F>;

    fn hash_or_noop(inputs: &[F]) -> HashOut<F> {
        let mut state = [9, 10, 11, 12];
        for value in inputs {
            absorb(&mut state, value.to_canonical_u64());
        }
        squeeze(state)
    }

    fn two_to_one(left: HashOut<F>, right: HashOut<F>) -> HashOut<F> {
        let mut state = [13, 14, 15, 16];
        for value in left.elements.iter().chain(right.elements.iter()) {
            absorb(&mut state, value.to_canonical_u64());
        }
        squeeze(state)
    }
}

fn element(n: u64) -> F {
    F::from_canonical_u64(n)
}

fn numbered_leaves(n: usize) -> Vec<Vec<F>> {
    (0..n as u64).map(|i| vec![element(3 * i), element(3 * i + 1)]).collect()
}

fn hash_numbered(n: u64) -> HashOut<F> {
    HashOut { elements: [element(n), element(n), element(n), element(n)] }
}

fn plan_for(n: usize, cap_height: usize) -> MerklePlan {
    plan_shape(n, 2, true, cap_height).unwrap()
}

/// Carries out the dispatches of a tree, and returns the words of leaf digests, nodes and cap.
fn run_on_host(plan: &MerklePlan, leaves: &[Vec<F>]) -> Vec<u32> {
    let work = schedule(plan);
    let leaf_hashes: Vec<HashOut<F>> =
        leaves.iter().map(|leaf| ShiftHash::hash_or_noop(leaf)).collect();
    let mut nodes = vec![HashOut::<F>::zero(); plan.total_nodes];
    let mut cap = vec![HashOut::<F>::zero(); plan.cap_len];
    for dispatch in &work.layers {
        let args = dispatch.args;
        for i in 0..args.dst_layer_size as usize {
            let at = args.src_offset as usize + 2 * i;
            let (left, right) = if args.layer == 0 {
                (leaf_hashes[2 * i], leaf_hashes[2 * i + 1])
            } else {
                (nodes[at], nodes[at + 1])
            };
            let digest = ShiftHash::two_to_one(left, right);
            if args.write_to_cap == 1 {
                cap[args.dst_offset as usize + i] = digest;
            } else {
                nodes[args.dst_offset as usize + i] = digest;
            }
        }
    }
    let mut words = Vec::new();
    for hash in leaf_hashes.iter().chain(nodes.iter()).chain(cap.iter()) {
        for value in hash.elements {
            words.extend(field_to_words(&value));
        }
    }
    words
}

#[test]
fn layers_halve() {
    assert_eq!(host_layer_size(16, 0), 16);
    assert_eq!(host_layer_size(16, 1), 8);
    assert_eq!(host_layer_size(16, 4), 1);
    assert_eq!(host_layer_size(10, 1), 5);
    assert_eq!(host_layer_size(10, 2), 3);
    assert_eq!(host_layer_offset(16, 0), 0);
    assert_eq!(host_layer_offset(16, 1), 0);
    assert_eq!(host_layer_offset(16, 2), 8);
    assert_eq!(host_layer_offset(16, 4), 14);
    assert_eq!(host_layer_offset(10, 3), 8);
}

#[test]
fn plans_measure_the_tree() {
    let leaves = numbered_leaves(16);
    assert_eq!(leaf_info(&leaves), (16, 2));
    assert_eq!(
        plan_merkle_tree(&leaves, 1),
        Ok(MerklePlan {
            num_leaves: 16,
            elements_per_leaf: 2,
            cap_height: 1,
            num_layers_to_cap: 3,
            cap_len: 2,
            total_nodes: 12,
        })
    );
}

#[test]
fn plans_object_in_order() {
    assert_eq!(plan_shape(0, 2, true, 0), Err(PlanError::NoLeaves));
    assert_eq!(
        plan_shape(0x8000_0000, 2, false, 0),
        Err(PlanError::TooManyLeaves { num_leaves: 0x8000_0000 })
    );
    assert_eq!(plan_shape(12, 2, false, 0), Err(PlanError::MixedLeafLengths));
    assert_eq!(plan_shape(12, 2, true, 9), Err(PlanError::LeafCountNotPowerOfTwo));
    assert_eq!(
        plan_shape(8, 2, true, 4),
        Err(PlanError::CapTooHigh { cap_height: 4, depth: 3 })
    );
    assert_eq!(
        plan_shape(8, 0, true, 3),
        Err(PlanError::NoInternalNodes { num_leaves: 8, cap_height: 3 })
    );
    assert_eq!(
        plan_shape(8, 0, true, 2),
        Err(PlanError::NoInternalNodes { num_leaves: 8, cap_height: 2 })
    );
    assert_eq!(plan_shape(8, 0, true, 1), Err(PlanError::EmptyLeaves));
    assert_eq!(
        plan_shape(8, 0x8000_0000, true, 1),
        Err(PlanError::LeavesTooWide { elements_per_leaf: 0x8000_0000 })
    );
    let mut leaves = numbered_leaves(8);
    leaves[5].push(element(1));
    assert_eq!(plan_merkle_tree(&leaves, 0), Err(PlanError::MixedLeafLengths));
}

#[test]
fn workgroups_make_one_row_until_it_is_too_long() {
    assert_eq!(compute_workgroups(0), (0, 1));
    assert_eq!(compute_workgroups(1), (1, 1));
    assert_eq!(compute_workgroups(64), (1, 1));
    assert_eq!(compute_workgroups(65), (2, 1));
    assert_eq!(compute_workgroups(64 * 65535), (65535, 1));
    assert_eq!(compute_workgroups(64 * 65536), (32768, 2));
    assert_eq!(compute_workgroups(64 * 98303), (49152, 2));
    assert_eq!(compute_workgroups(64 * 98304), (32768, 3));
}

#[test]
fn workgroups_cover_every_thread() {
    for num in [0, 1, 63, 64, 1000, 64 * 65536 + 1, 64 * 100_001, 1 << 31] {
        let (x, y) = compute_workgroups(num);
        assert!(x as usize * y as usize * 64 >= num);
        assert!(x < 65536 && y < 65536);
    }
}

#[test]
fn leaves_go_up_in_thousands() {
    assert_eq!(leaf_chunks(0, 3), vec![]);
    assert_eq!(
        leaf_chunks(2500, 3),
        vec![
            LeafChunk { start: 0, count: 1000, offset_bytes: 0, size_bytes: 24000 },
            LeafChunk { start: 1000, count: 1000, offset_bytes: 24000, size_bytes: 24000 },
            LeafChunk { start: 2000, count: 500, offset_bytes: 48000, size_bytes: 12000 },
        ]
    );
    assert_eq!(leaf_chunks(2000, 1).len(), 2);
}

#[test]
fn uploads_hold_canonical_words_in_row_order() {
    let leaves = vec![
        vec![element(1), element(0x2_0000_0003)],
        vec![element(4), element(5)],
        vec![element(6), element(7)],
    ];
    assert_eq!(chunk_words(&leaves, 0, 2, 2), vec![1, 0, 3, 2, 4, 0, 5, 0]);
    assert_eq!(chunk_words(&leaves, 2, 1, 1), vec![6, 0]);
    assert_eq!(chunk_bytes(&leaves, 1, 2, 2), words_to_bytes(&[4, 0, 5, 0, 6, 0, 7, 0]));
}

#[test]
fn uploads_put_together_are_the_leaves() {
    let leaves = numbered_leaves(2048);
    let mut buffer = vec![0u8; 2048 * 16];
    for chunk in leaf_chunks(2048, 2) {
        let bytes = chunk_bytes(&leaves, chunk.start, chunk.count, 2);
        let at = chunk.offset_bytes as usize;
        assert_eq!(bytes.len() as u64, chunk.size_bytes);
        buffer[at..at + bytes.len()].copy_from_slice(&bytes);
    }
    assert_eq!(buffer, words_to_bytes(&chunk_words(&leaves, 0, 2048, 2)));
}

#[test]
fn schedules_list_every_dispatch() {
    let plan = plan_for(16, 1);
    let work = schedule(&plan);
    assert_eq!(work.leaf_buffer_bytes, 256);
    assert_eq!(work.chunks.len(), 1);
    assert_eq!((work.transpose.workgroups_x, work.transpose.workgroups_y), (1, 1));
    assert_eq!(work.leaf_hash.output_bytes, 512);
    assert_eq!(work.leaf_hash.num_leaves_bytes(), 16i32.to_ne_bytes().to_vec());
    assert_eq!(work.leaf_hash.elements_per_leaf_bytes(), 2i32.to_ne_bytes().to_vec());
    assert_eq!(work.nodes_bytes, 384);
    assert_eq!(work.cap_bytes, 64);
    assert_eq!(work.layers.len(), 3);
    let leaves = work.leaves_to_canonical.unwrap();
    assert_eq!((leaves.num, leaves.workgroups_x, leaves.workgroups_y), (64, 1, 1));
    let nodes = work.nodes_to_canonical.unwrap();
    assert_eq!((nodes.num, nodes.workgroups_x), (48, 1));
    assert_eq!(nodes.num_bytes(), 48i32.to_ne_bytes().to_vec());
}

#[test]
fn dispatches_chain_from_the_leaves_to_the_cap() {
    let plan = plan_for(16, 1);
    assert_eq!(
        layer_dispatch(&plan, 0).args,
        MerkleTreeKernelArgs {
            cap_len: 2,
            layer: 0,
            src_layer_size: 16,
            dst_layer_size: 8,
            src_offset: 0,
            dst_offset: 0,
            write_to_cap: 0,
        }
    );
    assert_eq!(
        layer_dispatch(&plan, 1).args,
        MerkleTreeKernelArgs {
            cap_len: 2,
            layer: 1,
            src_layer_size: 8,
            dst_layer_size: 4,
            src_offset: 0,
            dst_offset: 8,
            write_to_cap: 0,
        }
    );
    let last = layer_dispatch(&plan, 2);
    assert_eq!(
        last.args,
        MerkleTreeKernelArgs {
            cap_len: 2,
            layer: 2,
            src_layer_size: 4,
            dst_layer_size: 2,
            src_offset: 8,
            dst_offset: 0,
            write_to_cap: 1,
        }
    );
    assert_eq!(last.args.to_bytes(), words_to_bytes(&[2, 2, 4, 2, 8, 0, 1]));
    assert_eq!((last.workgroups_x, last.workgroups_y), (1, 1));
}

#[test]
fn transposing_takes_blocks_of_sixteen() {
    let work = transpose_dispatch(100, 17);
    assert_eq!((work.workgroups_x, work.workgroups_y), (2, 7));
    assert_eq!(work.num_leaves_bytes(), 100u32.to_ne_bytes().to_vec());
    assert_eq!(work.elements_per_leaf_bytes(), 17u32.to_ne_bytes().to_vec());
}

#[test]
fn empty_buffers_need_no_conversion() {
    assert_eq!(to_canonical_dispatch(0), None);
    let work = to_canonical_dispatch(0xFFFF_FFFF).unwrap();
    assert_eq!(work.num, -1);
    assert_eq!(work.num_bytes(), (-1i32).to_ne_bytes().to_vec());
}

#[test]
fn kernels_bind_their_buffers() {
    let write = |binding, min_bytes| StorageBinding { binding, read_only: false, min_bytes };
    let read =
        |binding, bytes| StorageBinding { binding, read_only: true, min_bytes: Some(bytes) };
    assert_eq!(
        merkle_bindings(),
        vec![
            write(0, None),
            write(1, None),
            write(2, None),
            read(3, 28),
            read(4, 96),
            read(5, 96),
            read(6, 2880),
        ]
    );
    assert_eq!(
        leaf_hash_bindings(),
        vec![
            write(0, Some(32)),
            write(1, None),
            read(2, 4),
            read(3, 4),
            read(4, 96),
            read(5, 96),
            read(6, 2880),
        ]
    );
    assert_eq!(
        transpose_bindings(),
        vec![write(0, Some(8)), write(1, Some(8)), read(2, 4), read(3, 4)]
    );
    assert_eq!(to_canonical_bindings(), vec![write(0, Some(8)), read(1, 4)]);
}

#[test]
fn staging_buffers_are_kept_while_they_are_large_enough() {
    let mut cache = StagingCache::empty();
    assert!(cache.reserve(0));
    assert!(cache.reserve(100));
    assert!(!cache.reserve(100));
    assert!(!cache.reserve(7));
    assert_eq!(cache, StagingCache { present: true, capacity: 100 });
    assert!(cache.reserve(101));
    assert_eq!(cache.capacity, 101);
}

#[test]
fn sections_follow_one_another() {
    let plan = plan_for(16, 1);
    let sections = readback_sections(&plan);
    assert_eq!(
        sections,
        vec![
            HashSection { source: SectionSource::Leaf, word_len: 128 },
            HashSection { source: SectionSource::Node, word_len: 96 },
            HashSection { source: SectionSource::Cap, word_len: 16 },
        ]
    );
    let (copies, total_bytes) = section_copies(&sections);
    assert_eq!(
        copies,
        vec![
            SectionCopy { offset_bytes: 0, size_bytes: 512, offset_words: 0 },
            SectionCopy { offset_bytes: 512, size_bytes: 384, offset_words: 128 },
            SectionCopy { offset_bytes: 896, size_bytes: 64, offset_words: 224 },
        ]
    );
    assert_eq!(total_bytes, 960);
    assert_eq!(section_copies(&[]), (vec![], 0));
}

#[test]
fn trees_without_nodes_have_two_sections() {
    let plan = MerklePlan {
        num_leaves: 4,
        elements_per_leaf: 1,
        cap_height: 1,
        num_layers_to_cap: 1,
        cap_len: 2,
        total_nodes: 0,
    };
    let sections = readback_sections(&plan);
    assert_eq!(sections.len(), 2);
    assert_eq!(sections[1], HashSection { source: SectionSource::Cap, word_len: 16 });
    let words: Vec<u32> = (0..48).map(|i| i / 8).collect();
    let output = output_from_words::<F>(&plan, &words).unwrap();
    let spelled = |n: u64| hash_numbered(n << 32 | n);
    assert_eq!(output.digests, vec![spelled(0), spelled(1), spelled(2), spelled(3)]);
    assert_eq!(output.cap, vec![spelled(4), spelled(5)]);
}

#[test]
fn words_decode_in_eights() {
    let words: Vec<u32> = (0..16).map(|i| if i % 2 == 0 { i / 8 + 1 } else { 0 }).collect();
    assert_eq!(decode_hashes::<F>(&words), Ok(vec![hash_numbered(1), hash_numbered(2)]));
    assert_eq!(decode_hashes::<F>(&words[..13]), Err(DigestLengthError { got: 5 }));
    assert_eq!(decode_hashes::<F>(&[]), Ok(vec![]));
}

#[test]
fn sections_decode_one_by_one() {
    let words: Vec<u32> = (0..24).map(|i| if i % 2 == 0 { i / 8 + 1 } else { 0 }).collect();
    let section = |word_len| HashSection { source: SectionSource::Node, word_len };
    assert_eq!(
        decode_sections::<F>(&words, &[section(16), section(0), section(8)]),
        Ok(vec![vec![hash_numbered(1), hash_numbered(2)], vec![], vec![hash_numbered(3)]])
    );
    assert_eq!(
        decode_sections::<F>(&words, &[section(8), section(10), section(3)]),
        Err(DigestLengthError { got: 2 })
    );
    assert_eq!(decode_sections::<F>(&words, &[]), Ok(vec![]));
}

#[test]
fn layers_are_found_in_the_buffers() {
    let leaves: Vec<HashOut<F>> = (0..8).map(hash_numbered).collect();
    let nodes: Vec<HashOut<F>> = (100..106).map(hash_numbered).collect();
    let cap = vec![hash_numbered(200)];
    let accessor = LayerAccessor::new(&leaves, &nodes, &cap, 8, 3);
    assert_eq!(accessor.cap_layer(), 3);
    assert_eq!(accessor.node(0, 5), &hash_numbered(5));
    assert_eq!(accessor.node(1, 3), &hash_numbered(103));
    assert_eq!(accessor.node(2, 1), &hash_numbered(105));
    assert_eq!(accessor.node(3, 0), &hash_numbered(200));
}

#[test]
fn subtrees_are_written_in_place() {
    let leaves: Vec<HashOut<F>> = (0..8).map(hash_numbered).collect();
    let nodes: Vec<HashOut<F>> = (100..104).map(hash_numbered).collect();
    let cap = vec![hash_numbered(200), hash_numbered(201)];
    let accessor = LayerAccessor::new(&leaves, &nodes, &cap, 8, 2);
    let mut digests = vec![hash_numbered(999); 8];
    write_subtree_chunk_from_gpu(&mut digests, 1, 6, &accessor, 4, 4);
    let expected: Vec<HashOut<F>> =
        [999, 4, 5, 102, 103, 6, 7, 999].into_iter().map(hash_numbered).collect();
    assert_eq!(digests, expected);
}

#[test]
fn subtrees_of_any_number_of_leaves_are_written() {
    let leaves: Vec<HashOut<F>> = (0..7).map(hash_numbered).collect();
    let nodes: Vec<HashOut<F>> = (100..103).map(hash_numbered).collect();
    let accessor = LayerAccessor::new(&leaves, &nodes, &[], 7, 2);
    let mut digests = vec![hash_numbered(999); 6];
    write_subtree_chunk_from_gpu(&mut digests, 0, 6, &accessor, 0, 4);
    let expected: Vec<HashOut<F>> =
        [0, 1, 100, 101, 2, 3].into_iter().map(hash_numbered).collect();
    assert_eq!(digests, expected);
}

#[test]
fn subtrees_of_one_leaf_have_nothing_to_write() {
    let accessor = LayerAccessor::<F>::new(&[], &[], &[], 0, 0);
    let mut digests = vec![hash_numbered(999); 2];
    write_subtree_chunk_from_gpu(&mut digests, 1, 0, &accessor, 5, 1);
    assert_eq!(digests, vec![hash_numbered(999); 2]);
}

#[test]
fn nodes_go_to_their_slots() {
    let leaves: Vec<HashOut<F>> = (0..16).map(hash_numbered).collect();
    let nodes: Vec<HashOut<F>> = (100..112).map(hash_numbered).collect();
    let accessor = LayerAccessor::new(&leaves, &nodes, &[], 16, 3);
    let mut digests = vec![hash_numbered(999); 14];
    write_subtree_chunk_from_gpu(&mut digests, 0, 14, &accessor, 8, 8);
    for layer in 0..3 {
        for j in 0..1usize << (3 - layer) {
            let at = 2 * ((j >> 1) << (layer + 1)) + 2 * ((1 << layer) - 1) + (j & 1);
            assert_eq!(&digests[at], accessor.node(layer, (8 >> layer) + j));
        }
    }
}

#[test]
fn outputs_are_assembled_from_the_layers() {
    let leaves: Vec<HashOut<F>> = (0..8).map(hash_numbered).collect();
    let nodes: Vec<HashOut<F>> = (100..106).map(hash_numbered).collect();
    let plan = plan_for(8, 0);
    let output = assemble_output(&plan, &leaves, &nodes, vec![hash_numbered(200)]);
    let expected: Vec<HashOut<F>> = [0, 1, 100, 101, 2, 3, 104, 105, 4, 5, 102, 103, 6, 7]
        .into_iter()
        .map(hash_numbered)
        .collect();
    assert_eq!(output.digests, expected);
    assert_eq!(output.cap, vec![hash_numbered(200)]);
}

#[test]
fn trees_that_are_all_cap_have_no_digests() {
    let plan = MerklePlan {
        num_leaves: 2,
        elements_per_leaf: 1,
        cap_height: 1,
        num_layers_to_cap: 0,
        cap_len: 2,
        total_nodes: 0,
    };
    let leaves = vec![hash_numbered(1), hash_numbered(2)];
    let output = assemble_output(&plan, &leaves, &[], leaves.clone());
    assert!(output.digests.is_empty());
    assert_eq!(output.cap, leaves);
}

#[test]
fn the_gpu_path_mirrors_the_cpu() {
    for (n, cap_height) in [(4, 0), (8, 1), (64, 0), (64, 3), (1024, 4)] {
        let leaves = numbered_leaves(n);
        let plan = plan_merkle_tree(&leaves, cap_height).unwrap();
        let words = run_on_host(&plan, &leaves);
        let output = output_from_words::<F>(&plan, &words).unwrap();
        let cpu = MerkleTree::<F, ShiftHash>::new(leaves.clone(), cap_height);
        assert_eq!(MerkleTree::<F, ShiftHash>::from_gpu_output(leaves, output), cpu);
    }
}

#[test]
fn mapped_bytes_become_the_output() {
    let leaves = numbered_leaves(8);
    let plan = plan_merkle_tree(&leaves, 1).unwrap();
    let bytes = words_to_bytes(&run_on_host(&plan, &leaves));
    let cpu = MerkleTree::<F, ShiftHash>::new(leaves, 1);
    for shift in 0..4 {
        let mut room = vec![0u8; bytes.len() + 4];
        room[shift..shift + bytes.len()].copy_from_slice(&bytes);
        let output = output_from_bytes::<F>(&plan, &room[shift..shift + bytes.len()]).unwrap();
        assert_eq!(output.digests, cpu.digests);
        assert_eq!(output.cap, cpu.cap.0);
    }
    let mut odd = bytes;
    odd.push(0);
    assert!(output_from_bytes::<F>(&plan, &odd).is_none());
}

#[test]
fn large_trees_go_to_the_gpu() {
    assert!(!tries_gpu(1, 0));
    assert!(!tries_gpu(2048, 0));
    assert!(!tries_gpu(4096, 0));
    assert!(tries_gpu(8192, 0));
    assert!(tries_gpu(8192, 12));
    assert!(!tries_gpu(8192, 13));
    assert!(!tries_gpu(8192, 14));
}

#[test]
fn the_cpu_steps_in_where_the_gpu_does_not_build() {
    let leaves = numbered_leaves(8192);
    let cpu = MerkleTree::<F, ShiftHash>::new(leaves.clone(), 4);
    for attempt in [GpuAttempt::NoContext, GpuAttempt::Unavailable, GpuAttempt::Failed] {
        assert_eq!(MerkleTree::<F, ShiftHash>::build_gpu(leaves.clone(), 4, attempt), cpu);
    }
    let plan = plan_merkle_tree(&leaves, 4).unwrap();
    let output = output_from_words::<F>(&plan, &run_on_host(&plan, &leaves)).unwrap();
    let gpu =
        MerkleTree::<F, ShiftHash>::build_gpu(leaves.clone(), 4, output.into_attempt());
    assert_eq!(gpu, cpu);
    let proof = gpu.prove(777);
    assert_eq!(verify_merkle_proof_to_cap(leaves[777].clone(), 777, &gpu.cap, &proof), Ok(()));
}

#[test]
fn written_subtrees_are_filled_ones() {
    let leaves = numbered_leaves(8);
    let leaf_hashes: Vec<HashOut<F>> =
        leaves.iter().map(|leaf| ShiftHash::hash_or_noop(leaf)).collect();
    let nodes: Vec<HashOut<F>> =
        leaf_hashes.chunks(2).map(|pair| ShiftHash::two_to_one(pair[0], pair[1])).collect();
    let accessor = LayerAccessor::new(&leaf_hashes, &nodes, &[], 8, 2);
    let mut digests = vec![HashOut::<F>::zero(); 6];
    write_subtree_chunk_from_gpu(&mut digests, 0, 6, &accessor, 4, 4);
    let (root, filled) = fill_subtree::<F, ShiftHash>(&leaves[4..]);
    assert_eq!(digests, filled);
    assert_eq!(root, ShiftHash::two_to_one(nodes[2], nodes[3]));
}

/// A digest of one element, for hashers that the device knows nothing of.
#[derive(Clone, Copy, Debug, PartialEq, Eq)]
struct SumHash;

impl Hasher<F> for SumHash {
    type Hash = Single;

    fn hash_or_noop(inputs: &[F]) -> Single {
        Single(inputs.iter().fold(7, |sum, value| sum * 31 % 65_537 + value.to_canonical_u64()))
    }

    fn two_to_one(left: Single, right: Single) -> Single {
        Single((left.0 * 17 + right.0 * 3 + 1) % 65_537)
    }
}

#[derive(Clone, Copy, Debug, PartialEq, Eq)]
struct Single(u64);

impl GenericHashOut<F> for Single {
    fn to_vec(&self) -> Vec<F> {
        vec![element(self.0)]
    }

    fn same_as(&self, other: &Self) -> bool {
        self == other
    }
}

#[test]
fn the_cpu_steps_in_for_every_hasher() {
    let leaves = numbered_leaves(8192);
    let cpu = MerkleTree::<F, SumHash>::new(leaves.clone(), 2);
    for attempt in [GpuAttempt::NoContext, GpuAttempt::Unavailable, GpuAttempt::Failed] {
        assert_eq!(MerkleTree::<F, SumHash>::build_gpu(leaves.clone(), 2, attempt), cpu);
    }
}

#[test]
fn finished_output_is_taken_as_it_is() {
    let leaves = numbered_leaves(8192);
    let plan = plan_merkle_tree(&leaves, 0).unwrap();
    let words = vec![0u32; 8 * (plan.num_leaves + plan.total_nodes + plan.cap_len)];
    let output = output_from_words::<F>(&plan, &words).unwrap();
    let tree = MerkleTree::<F, ShiftHash>::build_gpu(leaves, 0, output.into_attempt());
    assert_eq!(tree.cap.0, vec![HashOut::<F>::zero()]);
    assert_eq!(tree.digests, vec![HashOut::<F>::zero(); 2 * 8191]);

    let small = numbered_leaves(4);
    let cpu = MerkleTree::<F, ShiftHash>::new(small.clone(), 0);
    let plan = plan_merkle_tree(&small, 0).unwrap();
    let words = vec![0u32; 8 * (plan.num_leaves + plan.total_nodes + plan.cap_len)];
    let output = output_from_words::<F>(&plan, &words).unwrap();
    let tree = MerkleTree::<F, ShiftHash>::build_gpu(small, 0, output.into_attempt());
    assert_eq!(tree, cpu);
}
