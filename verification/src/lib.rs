//! Verkle trees: trees of vector commitments, in which a batch of leaves is
//! proved by one opening per node on the way from the root to the leaves.
//!
//! `index_plan` plans which child positions a batch opens at which node.
//! `verkle_tree` is the tree over polynomial commitments, with `kzg` as its
//! backend, `field` and `curve` as the values that pass between them, and
//! `lagrange` to tell where the backend can interpolate. `verkle_tree_point`
//! is the tree over a vector commitment to byte strings that the caller
//! brings. `round_trip` shows that what a tree proves is in order for
//! checking.

pub mod curve;
pub mod field;
pub mod index_plan;
pub mod kzg;
pub mod lagrange;
pub mod opening_set;
pub mod round_trip;
pub mod verkle_tree;
pub mod verkle_tree_point;

pub use verkle_tree::{ProofNode, VerkleProof, VerkleTree};
#[allow(non_camel_case_types)]
pub use verkle_tree_point::{
    ProofNode as ProofNode_point, VerkleProof as VerkleProof_point, VerkleTree as VerkleTree_point,
};
