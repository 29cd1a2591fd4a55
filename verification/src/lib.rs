//! An append-only Merkle Mountain Range (MMR) accumulator.
//!
//! The structure commits to an ordered sequence of digests and produces
//! compact membership proofs for any previously appended element.  A packed
//! integer (the *forest*) describes the shape of the structure: each set bit
//! marks one perfect binary tree, the bit position giving the tree's depth.
//! All nodes of all trees live in one linear buffer, in postorder.
pub mod bit;
pub mod digest;
pub mod errors;
pub mod field;
pub mod forest;
pub mod hasher;
pub mod mmr;
pub mod model;
pub mod nodes;
pub mod path;
pub mod peaks;
pub mod security;

