//! Addresses and 256-bit numbers as the genesis allocation holds them.
use vstd::prelude::*;
use crate::curve::le_value;
use crate::numbers::{le_bytes, lemma_le_bytes_of_le_value, u64_to_le_bytes32};
use crate::primitives::TrieValue;

verus! {

/// The 20-byte address of an account.
#[derive(Debug, Clone, Copy, PartialEq, Eq, PartialOrd, Ord, Hash)]
pub struct Address {
    pub(crate) bytes: [u8; 20],
}

/// A 256-bit number.
#[derive(Debug, Clone, Copy, PartialEq, Eq, Hash)]
pub struct U256 {
    pub(crate) le_bytes: [u8; 32],
}

impl View for Address {
    type V = Seq<u8>;

    open(crate) spec fn view(&self) -> Seq<u8> {
        self.bytes@
    }
}

impl View for U256 {
    type V = nat;

    /// The number.
    open(crate) spec fn view(&self) -> nat {
        le_value(self.le_bytes@)
    }
}

impl Address {
    pub fn new(bytes: [u8; 20]) -> (r: Self)
        ensures
            r@ == bytes@,
    {
        Address { bytes }
    }

    pub fn as_bytes(&self) -> (r: &[u8; 20])
        ensures
            r@ == self@,
    {
        &self.bytes
    }
}

impl U256 {
    /// The number that `bytes` spell, least significant byte first.
    pub fn from_le_bytes(bytes: [u8; 32]) -> (r: Self)
        ensures
            r@ == le_value(bytes@),
            r.spec_le_bytes() == bytes@,
    {
        U256 { le_bytes: bytes }
    }

    /// The 32 bytes of the number, least significant first.
    pub open(crate) spec fn spec_le_bytes(self) -> Seq<u8> {
        self.le_bytes@
    }

    /// The bytes of the number are its spelling in 32 bytes.
    pub proof fn lemma_le_bytes(self)
        ensures
            self.spec_le_bytes() == le_bytes(self@, 32),
    {
        lemma_le_bytes_of_le_value(self.le_bytes@);
    }

    pub fn to_le_bytes(&self) -> (r: [u8; 32])
        ensures
            r@ == self.spec_le_bytes(),
            r@ == le_bytes(self@, 32),
    {
        proof {
            self.lemma_le_bytes();
        }
        self.le_bytes
    }

    pub fn from_u64(x: u64) -> (r: Self)
        ensures
            r@ == x,
    {
        U256 { le_bytes: u64_to_le_bytes32(x) }
    }

    pub fn zero() -> (r: Self)
        ensures
            r@ == 0,
    {
        Self::from_u64(0)
    }

    /// The number as a trie value: its 32 bytes, least significant first.
    pub fn to_trie_value(&self) -> (r: TrieValue)
        ensures
            r@ == le_bytes(self@, 32),
    {
        TrieValue::new(self.to_le_bytes())
    }
}

} // verus!
