//! Merkle trees with a cap, and the host side of building them on a GPU.
//!
//! `merkle_tree` builds trees on the CPU and opens them; `merkle_proofs` checks the openings.
//! `tree_model` says what the nodes of a tree are and how its digests are laid out, and the
//! other modules state their contracts over it. The `gpu_*` modules hold everything that the
//! GPU path computes on the host: which dispatches to run, what to upload, and how to turn the
//! words read back into the digests of the tree. `laws` states what holds of the trees as a whole,
//! and `gpu_laws` what holds of the GPU path, above all that it builds the same trees.

pub mod field;
pub mod gpu_bindings;
pub mod gpu_bytes;
pub mod gpu_dispatch;
pub mod gpu_laws;
pub mod gpu_plan;
pub mod gpu_readback;
pub mod gpu_words;
pub mod hash_types;
pub mod laws;
pub mod merkle_proofs;
pub mod merkle_tree;
mod parallel;
pub mod profiling;
pub mod tree_model;
pub mod util;
