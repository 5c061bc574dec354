//! What can go wrong in the trie and in the driver that feeds it.
use vstd::prelude::*;
use crate::primitives::{Stem, TrieValue};

verus! {

/// An error of the trie.
#[allow(inconsistent_fields)]
#[derive(Debug, Clone, PartialEq, Eq)]
pub enum VerkleTrieError {
    /// A write for one stem reached the leaf of another.
    UnexpectedStem { expected: Stem, actual: Stem },
    /// A write expected a value at `index` that the trie does not hold there.
    WrongOldValue {
        stem: Stem,
        index: u8,
        expected: Option<TrieValue>,
        actual: Option<TrieValue>,
    },
    /// A traversal ran into an empty slot.
    NodeNotFound,
}

/// An error of the block-level driver.
#[allow(inconsistent_fields)]
#[derive(Debug, Clone, PartialEq, Eq)]
pub enum EvmError {
    /// The block's number does not follow that of the last block processed.
    UnexpectedBlock { expected: u64, actual: u64 },
    /// The root after the block's writes is not the root that its header declares.
    WrongStateRoot { expected: [u8; 32], actual: [u8; 32] },
    /// The trie refused a write.
    TrieError(VerkleTrieError),
}

} // verus!
