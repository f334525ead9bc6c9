# merkle_forest

Merkle trees with a cap over vectors of field elements, with the host side of building them on a
GPU. The library is written in Verus: every function carries a contract, and the contracts are
proved.

- `src/tree_model.rs` says what the nodes of a tree are and how its digests are laid out.
- `src/merkle_tree.rs` and `src/merkle_proofs.rs` build trees, open them and check the openings.
- `src/gpu_plan.rs`, `src/gpu_dispatch.rs`, `src/gpu_bindings.rs`, `src/gpu_words.rs` and
  `src/gpu_bytes.rs` decide what is submitted to the device for a tree, and what is uploaded.
- `src/gpu_readback.rs` turns what is read back into the digests of the tree.
- `src/laws.rs` and `src/gpu_laws.rs` state what holds of the two paths as a whole: every leaf
  verifies with its opening, and the output of the GPU path mirrors the tree that the CPU builds.
- `app/` talks to WebGPU, the event loop and the log. It takes the WGSL sources of the kernels and
  the constants of the Poseidon permutation from its caller.

Two crates are called from the library: work is handed to the thread pool through `plonky2_maybe_rayon`
(`src/parallel.rs`), and words become bytes and bytes words through `bytemuck`
(`src/gpu_bytes.rs`). What the contracts there claim of these crates is not proved.
