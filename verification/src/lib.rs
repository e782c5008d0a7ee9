//! Merkle membership statements: a hash tree over byte-string leaves, its
//! authentication paths, their native verification, and the same
//! verification laid out as a circuit of hash gadgets.

pub mod circuit;
pub mod common;
pub mod constraints;
pub mod hash;
pub mod laws;
pub mod tree;

use vstd::prelude::*;

verus! {

/// A Merkle tree over byte-string leaves.
pub type SimpleMerkleTree = tree::MerkleTree;

/// The root of a Merkle tree.
pub type Root = hash::Digest;

/// A membership proof for one leaf.
pub type SimplePath = tree::Path;

} // verus!
