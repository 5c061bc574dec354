//! Batched writes: per stem, a map from suffix to the value to store.
use vstd::prelude::*;
use std::collections::HashMap;
use crate::primitives::{option_view, Stem, TrieValue};

verus! {

/// A write to one suffix of a stem.
#[derive(Debug, Clone, Copy, PartialEq, Eq)]
pub struct SuffixWrite {
    /// `Some(v)` asks that the slot hold `v` before the write (`Some(None)`:
    /// that it be empty); `None` asks nothing.
    pub expected_old: Option<Option<TrieValue>>,
    /// The value to store.
    pub new_value: TrieValue,
}

/// The writes to one stem, by suffix.
#[derive(Debug, Clone)]
pub struct StemStateWrite {
    pub stem: Stem,
    pub writes: HashMap<u8, SuffixWrite>,
}

/// The writes of one block, stem by stem in the order in which they are applied.
#[derive(Debug, Clone)]
pub struct StateWrites {
    pub writes: Vec<StemStateWrite>,
}

impl SuffixWrite {
    /// A write that asks nothing of the old value.
    pub fn new(new_value: TrieValue) -> (r: Self)
        ensures
            r.expected_old is None,
            r.new_value == new_value,
    {
        SuffixWrite { expected_old: None, new_value }
    }

    /// A write that asks for `expected_old` in the slot.
    pub fn with_expected(expected_old: Option<TrieValue>, new_value: TrieValue) -> (r: Self)
        ensures
            r.expected_old == Some(expected_old),
            r.new_value == new_value,
    {
        SuffixWrite { expected_old: Some(expected_old), new_value }
    }
}

impl StemStateWrite {
    /// The values to store, by suffix.
    pub open spec fn new_values(&self) -> Map<u8, Seq<u8>> {
        Map::new(|k: u8| self.writes@.contains_key(k), |k: u8| self.writes@[k].new_value@)
    }

    /// The values expected before the write, for the suffixes that expect one.
    pub open spec fn expectations(&self) -> Map<u8, Option<Seq<u8>>> {
        Map::new(
            |k: u8| self.writes@.contains_key(k) && self.writes@[k].expected_old is Some,
            |k: u8| option_view(self.writes@[k].expected_old->0),
        )
    }

    pub fn new(stem: Stem, writes: HashMap<u8, SuffixWrite>) -> (r: Self)
        ensures
            r.stem == stem,
            r.writes == writes,
    {
        StemStateWrite { stem, writes }
    }

    /// The write to `suffix`, if there is one.
    pub fn write_at(&self, suffix: u8) -> (r: Option<SuffixWrite>)
        ensures
            r == if self.writes@.contains_key(suffix) {
                Some(self.writes@[suffix])
            } else {
                None
            },
    {
        broadcast use vstd::std_specs::hash::group_hash_axioms;

        match self.writes.get(&suffix) {
            Some(write) => Some(*write),
            None => None,
        }
    }
}

impl StateWrites {
    pub fn new(writes: Vec<StemStateWrite>) -> (r: Self)
        ensures
            r.writes == writes,
    {
        StateWrites { writes }
    }

    pub fn len(&self) -> (r: usize)
        ensures
            r == self.writes@.len(),
    {
        self.writes.len()
    }
}

/// Whether the slot `k` holds something else than the write to it expects.
pub open spec fn mismatch_at(
    values: Seq<Option<Seq<u8>>>,
    expected: Map<u8, Option<Seq<u8>>>,
    k: int,
) -> bool {
    expected.contains_key(k as u8) && expected[k as u8] != values[k]
}

/// The least suffix from `from` on whose slot holds something else than expected.
pub open spec fn first_mismatch(
    values: Seq<Option<Seq<u8>>>,
    expected: Map<u8, Option<Seq<u8>>>,
    from: int,
) -> Option<int>
    decreases 256 - from,
{
    if from < 0 || from >= 256 {
        None
    } else if mismatch_at(values, expected, from) {
        Some(from)
    } else {
        first_mismatch(values, expected, from + 1)
    }
}

} // verus!
