//! State diffs as an execution witness carries them, and their way into state writes.
use vstd::prelude::*;
use std::collections::HashMap;
use crate::curve::Curve;
use crate::portal::proofs::IpaProof;
use crate::primitives::{option_view, Stem, TrieValue};
use crate::state_write::{StateWrites, StemStateWrite, SuffixWrite};

verus! {

/// What happens to one suffix of a stem: the value before and the value after.
#[derive(Debug, Clone, Copy, PartialEq, Eq)]
pub struct SuffixStateDiff {
    pub suffix: u8,
    pub current_value: Option<TrieValue>,
    pub new_value: Option<TrieValue>,
}

/// What happens to one stem.
#[derive(Debug, Clone, PartialEq, Eq)]
pub struct StemStateDiff {
    pub stem: Stem,
    pub suffix_diffs: Vec<SuffixStateDiff>,
}

/// What happens to the state, stem by stem.
pub type StateDiff = Vec<StemStateDiff>;

/// The proof that a state diff starts from a given state root.
pub struct VerkleProof<C: Curve> {
    pub other_stems: Vec<Stem>,
    pub depth_extension_present: Vec<u8>,
    pub commitments_by_path: Vec<C::Point>,
    pub d: C::Point,
    pub ipa_proof: IpaProof<C>,
}

/// What a block carries about the state it reads and writes.
pub struct ExecutionWitness<C: Curve> {
    pub state_diff: StateDiff,
    pub verkle_proof: VerkleProof<C>,
}

/// A suffix diff as plain values: the suffix, the value before, the value after.
pub open spec fn suffix_diff_view(diff: SuffixStateDiff) -> (u8, Option<Seq<u8>>, Option<Seq<u8>>) {
    (diff.suffix, option_view(diff.current_value), option_view(diff.new_value))
}

/// A stem's diffs as plain values.
pub struct StemDiffModel {
    pub stem: Seq<u8>,
    pub suffix_diffs: Seq<(u8, Option<Seq<u8>>, Option<Seq<u8>>)>,
}

/// A stem's diffs as plain values.
pub open spec fn stem_diff_view(diff: StemStateDiff) -> StemDiffModel {
    StemDiffModel {
        stem: diff.stem@,
        suffix_diffs: Seq::new(
            diff.suffix_diffs@.len(),
            |i: int| suffix_diff_view(diff.suffix_diffs@[i]),
        ),
    }
}

/// A state diff as plain values.
pub open spec fn state_diff_view(diffs: Seq<StemStateDiff>) -> Seq<StemDiffModel> {
    Seq::new(diffs.len(), |i: int| stem_diff_view(diffs[i]))
}

/// The writes that a sequence of suffix diffs asks for: one for each suffix
/// that gets a new value; where a suffix occurs more than once, the last
/// occurrence counts. A checked write expects the value that its diff gives
/// as the value before; an unchecked write expects nothing.
pub open spec fn diff_writes(diffs: Seq<SuffixStateDiff>, checked: bool) -> Map<u8, SuffixWrite>
    decreases diffs.len(),
{
    if diffs.len() == 0 {
        Map::empty()
    } else {
        let earlier = diff_writes(diffs.drop_last(), checked);
        match diffs.last().new_value {
            Some(value) => earlier.insert(
                diffs.last().suffix,
                SuffixWrite {
                    expected_old: if checked {
                        Some(diffs.last().current_value)
                    } else {
                        None
                    },
                    new_value: value,
                },
            ),
            None => earlier,
        }
    }
}

/// Whether any of the diffs sets a new value.
pub open spec fn any_new_value(diffs: Seq<SuffixStateDiff>) -> bool {
    exists|i: int| 0 <= i < diffs.len() && (#[trigger] diffs[i]).new_value is Some
}

impl StemStateDiff {
    /// The writes that this diff asks for, or `None` if it sets no new
    /// value. The writes expect nothing of the values before.
    pub fn into_stem_state_write(self) -> (r: Option<StemStateWrite>)
        ensures
            r is Some <==> any_new_value(self.suffix_diffs@),
            r matches Some(write) ==> write.stem == self.stem && write.writes@ == diff_writes(
                self.suffix_diffs@,
                false,
            ),
    {
        self.to_stem_state_write(false)
    }

    /// The writes that this diff asks for, or `None` if it sets no new
    /// value. If `checked`, each write expects the value that its diff gives
    /// as the value before.
    pub fn to_stem_state_write(&self, checked: bool) -> (r: Option<StemStateWrite>)
        ensures
            r is Some <==> any_new_value(self.suffix_diffs@),
            r matches Some(write) ==> write.stem == self.stem && write.writes@ == diff_writes(
                self.suffix_diffs@,
                checked,
            ),
    {
        broadcast use vstd::std_specs::hash::group_hash_axioms;

        let mut writes: HashMap<u8, SuffixWrite> = HashMap::new();
        let mut any: bool = false;
        let mut i: usize = 0;
        proof {
            assert(self.suffix_diffs@.subrange(0, 0) =~= Seq::<SuffixStateDiff>::empty());
        }
        while i < self.suffix_diffs.len()
            invariant
                i <= self.suffix_diffs@.len(),
                writes@ == diff_writes(self.suffix_diffs@.subrange(0, i as int), checked),
                any == any_new_value(self.suffix_diffs@.subrange(0, i as int)),
            decreases self.suffix_diffs@.len() - i,
        {
            let ghost before = self.suffix_diffs@.subrange(0, i as int);
            let ghost after = self.suffix_diffs@.subrange(0, i + 1);
            proof {
                assert(after.drop_last() =~= before);
                assert(after.last() == self.suffix_diffs@[i as int]);
            }
            let suffix_state_diff = &self.suffix_diffs[i];
            match suffix_state_diff.new_value {
                Some(value) => {
                    let write = if checked {
                        SuffixWrite::with_expected(suffix_state_diff.current_value, value)
                    } else {
                        SuffixWrite::new(value)
                    };
                    writes.insert(suffix_state_diff.suffix, write);
                    any = true;
                    assert(after[i as int].new_value is Some);
                },
                None => {
                    proof {
                        if any_new_value(after) {
                            let k = choose|k: int|
                                0 <= k < after.len() && (#[trigger] after[k]).new_value is Some;
                            assert(before[k].new_value is Some);
                        }
                        if any_new_value(before) {
                            let k = choose|k: int|
                                0 <= k < before.len() && (#[trigger] before[k]).new_value is Some;
                            assert(after[k].new_value is Some);
                        }
                    }
                },
            }
            i += 1;
        }
        proof {
            assert(self.suffix_diffs@.subrange(0, i as int) =~= self.suffix_diffs@);
        }
        if !any {
            None
        } else {
            Some(StemStateWrite { stem: self.stem, writes })
        }
    }
}

/// A stem's writes as plain values: the stem, and the writes by suffix.
pub open spec fn state_write_view(write: StemStateWrite) -> (Seq<u8>, Map<u8, SuffixWrite>) {
    (write.stem@, write.writes@)
}

/// State writes as plain values.
pub open spec fn state_writes_view(writes: Seq<StemStateWrite>) -> Seq<
    (Seq<u8>, Map<u8, SuffixWrite>),
> {
    Seq::new(writes.len(), |i: int| state_write_view(writes[i]))
}

/// The writes that the first `n` stems of a state diff ask for: one entry
/// for each stem that sets a new value, in the order of the diff.
pub open spec fn diff_state_writes(diffs: Seq<StemStateDiff>, checked: bool, n: int) -> Seq<
    (Seq<u8>, Map<u8, SuffixWrite>),
>
    decreases n,
{
    if n <= 0 {
        Seq::empty()
    } else if any_new_value(diffs[n - 1].suffix_diffs@) {
        diff_state_writes(diffs, checked, n - 1).push(
            (diffs[n - 1].stem@, diff_writes(diffs[n - 1].suffix_diffs@, checked)),
        )
    } else {
        diff_state_writes(diffs, checked, n - 1)
    }
}

/// The state writes that a state diff asks for. They expect nothing of the
/// values before.
pub fn into_state_writes(state_diff: &StateDiff) -> (r: StateWrites)
    ensures
        state_writes_view(r.writes@) == diff_state_writes(
            state_diff@,
            false,
            state_diff@.len() as int,
        ),
{
    state_writes_of(state_diff, false)
}

/// The state writes that a state diff asks for, each of which expects the
/// value that the diff gives as the value before.
pub fn into_checked_state_writes(state_diff: &StateDiff) -> (r: StateWrites)
    ensures
        state_writes_view(r.writes@) == diff_state_writes(
            state_diff@,
            true,
            state_diff@.len() as int,
        ),
{
    state_writes_of(state_diff, true)
}

fn state_writes_of(state_diff: &StateDiff, checked: bool) -> (r: StateWrites)
    ensures
        state_writes_view(r.writes@) == diff_state_writes(
            state_diff@,
            checked,
            state_diff@.len() as int,
        ),
{
    let mut writes: Vec<StemStateWrite> = Vec::new();
    let mut i: usize = 0;
    proof {
        assert(state_writes_view(writes@) =~= diff_state_writes(state_diff@, checked, 0));
    }
    while i < state_diff.len()
        invariant
            i <= state_diff@.len(),
            state_writes_view(writes@) == diff_state_writes(state_diff@, checked, i as int),
        decreases state_diff@.len() - i,
    {
        let ghost before = state_writes_view(writes@);
        match state_diff[i].to_stem_state_write(checked) {
            Some(write) => {
                writes.push(write);
                assert(state_writes_view(writes@) =~= before.push(state_write_view(write)));
            },
            None => {},
        }
        i += 1;
    }
    StateWrites::new(writes)
}

} // verus!
