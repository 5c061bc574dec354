//! Nodes as they are handed to the overlay network: one bundle and up to 32
//! fragments per node of the trie.
use vstd::prelude::*;

pub mod branch_fragment;
pub mod content;
pub mod node_wire;
pub mod nodes;
pub mod proofs;
pub mod sparse_vector;
pub mod ssz;
pub mod wire;
