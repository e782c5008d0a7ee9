//! Shapes of the hash family that the tree is instantiated with.
//!
//! Both hashes are windowed: the input is cut into `NUM_WINDOWS` windows of
//! `WINDOW_SIZE` bits each. The shapes fix how many bytes a leaf may have and
//! how wide a digest is.

use vstd::prelude::*;

verus! {

/// Window shape of the two-to-one hash: 2 * 256 bits, room for two digests.
#[derive(Clone, Copy, Debug, PartialEq, Eq, Hash)]
pub struct TwoToOneWindow;

impl TwoToOneWindow {
    pub const WINDOW_SIZE: usize = 2;

    pub const NUM_WINDOWS: usize = 256;
}

/// Window shape of the leaf hash: 4 * 256 bits of leaf data.
#[derive(Clone, Copy, Debug, PartialEq, Eq, Hash)]
pub struct LeafWindow;

impl LeafWindow {
    pub const WINDOW_SIZE: usize = 4;

    pub const NUM_WINDOWS: usize = 256;
}

/// The tree's configuration: a leaf hash over `LeafWindow` and a two-to-one
/// hash over `TwoToOneWindow`.
#[derive(Clone, Copy, Debug, PartialEq, Eq, Hash)]
pub struct MerkleConfig;

impl MerkleConfig {
    /// The longest leaf, in bytes, that the leaf hash takes.
    pub const LEAF_BYTES: usize = LeafWindow::WINDOW_SIZE * LeafWindow::NUM_WINDOWS / 8;

    /// The width of a digest in bytes: half the input of the two-to-one hash.
    pub const DIGEST_BYTES: usize = TwoToOneWindow::WINDOW_SIZE * TwoToOneWindow::NUM_WINDOWS
        / 16;
}

} // verus!
