//! A Verkle trie whose nodes commit to their children with a vector
//! commitment, and the projection of its nodes onto bundles and fragments.
use vstd::prelude::*;

pub mod account;
pub mod args;
pub mod commitment;
pub mod curve;
pub mod error;
pub mod evm;
pub mod genesis;
pub mod gossip;
pub mod hashing;
pub mod laws;
pub mod model;
pub mod nodes;
pub mod numbers;
pub mod path;
pub mod portal;
pub mod primitives;
pub mod projection;
pub mod state_trie_fetcher;
pub mod state_write;
pub mod storage;
pub mod trie;
pub mod utils;
pub mod witness;
pub mod word_curve;
