//! The block-level driver: it takes the state diff of each block in turn,
//! applies it to the state trie, and holds the result against the state root that
//! the block declares.
use vstd::prelude::*;
use crate::curve::Curve;
use crate::error::{EvmError, VerkleTrieError};
use crate::genesis::{code_fits, genesis_writes, grouped, GenesisConfig};
use crate::model::NodeModel;
use crate::path::TriePath;
use crate::state_write::{StateWrites, StemStateWrite};
use crate::trie::{all_pass, apply_all, created_paths, fails_at, paths_view, VerkleTrie};
use crate::witness::{
    diff_state_writes, into_checked_state_writes, into_state_writes, state_diff_view,
    state_writes_view, StateDiff, StemStateDiff,
};

verus! {

/// The state after a number of blocks.
pub struct VerkleEvm<C: Curve> {
    pub(crate) block: u64,
    pub(crate) state_trie: VerkleTrie<C>,
}

/// What a block did to the state.
pub struct ProcessBlockResult {
    /// The writes of the block, stem by stem.
    pub state_writes: StateWrites,
    /// The paths of the branches that the block created.
    pub new_branch_nodes: Vec<TriePath>,
}

/// The number that the next block must have.
pub open spec fn next_block(block: u64) -> int {
    block + 1
}

impl<C: Curve> VerkleEvm<C> {
    /// The state trie is well-formed.
    pub open(crate) spec fn wf(self) -> bool {
        self.state_trie.wf()
    }

    /// The number of the last block processed; 0 after genesis.
    pub open(crate) spec fn spec_block(self) -> u64 {
        self.block
    }

    /// The state trie.
    pub open(crate) spec fn spec_state_trie(self) -> VerkleTrie<C> {
        self.state_trie
    }

    /// The state that the genesis allocation makes.
    pub fn new(genesis_config: &GenesisConfig) -> (r: Self)
        requires
            forall|i: int|
                0 <= i < genesis_config.alloc@.len() ==> code_fits(
                    #[trigger] genesis_config.alloc@[i],
                ),
        ensures
            r.wf(),
            r.spec_block() == 0,
            exists|diff: Seq<StemStateDiff>, writes: Seq<StemStateWrite>|
                genesis_applied::<C>(
                    genesis_config.alloc@,
                    diff,
                    writes,
                    r.spec_state_trie().model(),
                ),
    {
        let state_diff = genesis_config.generate_state_diff::<C>();
        let state_writes = into_state_writes(&state_diff);
        let mut state_trie = VerkleTrie::<C>::new();
        let ghost start = state_trie.model();
        let mut i: usize = 0;
        while i < state_writes.writes.len()
            invariant
                i <= state_writes.writes@.len(),
                state_trie.wf(),
                state_trie.model() == apply_all(start, state_writes.writes@, i as int),
            decreases state_writes.writes@.len() - i,
        {
            let _ = state_trie.apply_stem(&state_writes.writes[i]);
            i += 1;
        }
        assert(genesis_applied::<C>(
            genesis_config.alloc@,
            state_diff@,
            state_writes.writes@,
            state_trie.model(),
        ));
        VerkleEvm { block: 0, state_trie }
    }

    /// The number of the last block processed; 0 after genesis.
    pub fn block(&self) -> (r: u64)
        ensures
            r == self.spec_block(),
    {
        self.block
    }

    /// The state after the last block processed.
    pub fn state_trie(&self) -> (r: &VerkleTrie<C>)
        ensures
            *r == self.spec_state_trie(),
    {
        &self.state_trie
    }

    /// Applies the state diff of block `block_number` and holds the root
    /// commitment against `state_root`.
    ///
    /// Every write expects the value that the diff gives as the value before.
    ///
    /// Fails with `UnexpectedBlock` if the block is not the next one, and
    /// then changes nothing; with `TrieError` if a stem does not hold what
    /// its writes expect, and then the writes of the stems before it stay
    /// applied; with `WrongStateRoot` if
    /// the root commitment after the writes is not encoded by `state_root`,
    /// and then all writes stay applied. Only a block that passes becomes
    /// the last block processed.
    pub fn process_block(
        &mut self,
        block_number: u64,
        state_root: &[u8; 32],
        state_diff: &StateDiff,
    ) -> (r: Result<ProcessBlockResult, EvmError>)
        requires
            old(self).wf(),
        ensures
            final(self).wf(),
            block_outcome::<C>(*old(self), block_number, state_root@, state_diff@, r, *final(self)),
    {
        if self.block == u64::MAX || block_number != self.block + 1 {
            let expected = if self.block == u64::MAX {
                u64::MAX
            } else {
                self.block + 1
            };
            return Err(EvmError::UnexpectedBlock { expected, actual: block_number });
        }
        let state_writes = into_checked_state_writes(state_diff);
        let new_branch_nodes = match self.state_trie.update(&state_writes) {
            Ok(paths) => paths,
            Err(e) => {
                return Err(EvmError::TrieError(e));
            },
        };
        let actual = C::point_to_bytes(&self.state_trie.root_commitment());
        if !crate::numbers::same_bytes(&actual, state_root) {
            return Err(EvmError::WrongStateRoot { expected: *state_root, actual });
        }
        self.block = block_number;
        Ok(ProcessBlockResult { state_writes, new_branch_nodes })
    }
}

/// `diff` is the state diff of the genesis allocation `alloc`, `writes` are
/// the writes that it asks for, and `after` is the trie that they make of
/// the empty trie.
pub open spec fn genesis_applied<C: Curve>(
    alloc: Seq<(crate::account::Address, crate::genesis::AccountAlloc)>,
    diff: Seq<StemStateDiff>,
    writes: Seq<StemStateWrite>,
    after: Seq<NodeModel>,
) -> bool {
    &&& state_diff_view(diff) == grouped(genesis_writes::<C>(alloc, alloc.len() as int))
    &&& state_writes_view(writes) == diff_state_writes(diff, false, diff.len() as int)
    &&& after == apply_all(crate::model::empty_branch(), writes, writes.len() as int)
}

/// What `process_block` does; see there.
pub open spec fn block_outcome<C: Curve>(
    before: VerkleEvm<C>,
    block_number: u64,
    state_root: Seq<u8>,
    state_diff: Seq<StemStateDiff>,
    r: Result<ProcessBlockResult, EvmError>,
    after: VerkleEvm<C>,
) -> bool {
    let start = before.spec_state_trie().model();
    if block_number != next_block(before.spec_block()) {
        &&& r matches Err(EvmError::UnexpectedBlock { expected, actual })
        &&& actual == block_number
        &&& expected == if before.spec_block() == u64::MAX {
            u64::MAX as int
        } else {
            next_block(before.spec_block())
        }
        &&& after.spec_block() == before.spec_block()
        &&& after.spec_state_trie().model() == start
    } else {
        match r {
            Err(EvmError::UnexpectedBlock { .. }) => false,
            Err(EvmError::TrieError(e)) => {
                &&& after.spec_block() == before.spec_block()
                &&& exists|writes: Seq<StemStateWrite>, failed: int|
                    #![trigger fails_at(start, writes, failed, e, after.spec_state_trie().model())]
                    state_writes_view(writes) == diff_state_writes(
                        state_diff,
                        true,
                        state_diff.len() as int,
                    ) && fails_at(start, writes, failed, e, after.spec_state_trie().model())
            },
            Err(EvmError::WrongStateRoot { expected, actual }) => {
                &&& after.spec_block() == before.spec_block()
                &&& expected@ == state_root
                &&& actual@ == C::encoding(after.spec_state_trie().root_elem())
                &&& actual@ != state_root
                &&& exists|writes: Seq<StemStateWrite>|
                    #![trigger apply_all(start, writes, writes.len() as int)]
                    block_applied(start, state_diff, writes, after.spec_state_trie().model())
            },
            Ok(result) => {
                &&& after.spec_block() == block_number
                &&& C::encoding(after.spec_state_trie().root_elem()) == state_root
                &&& block_applied(
                    start,
                    state_diff,
                    result.state_writes.writes@,
                    after.spec_state_trie().model(),
                )
                &&& paths_view(result.new_branch_nodes@) == created_paths(
                    start,
                    result.state_writes.writes@,
                    result.state_writes.writes@.len() as int,
                )
            },
        }
    }
}

/// `writes` are the writes that `state_diff` asks for, each of which
/// expects the value that the diff gives as the value before; each of them
/// finds what it expects, and `after` is the trie that they make of `start`.
pub open spec fn block_applied(
    start: Seq<NodeModel>,
    state_diff: Seq<StemStateDiff>,
    writes: Seq<StemStateWrite>,
    after: Seq<NodeModel>,
) -> bool {
    &&& state_writes_view(writes) == diff_state_writes(
        state_diff,
        true,
        state_diff.len() as int,
    )
    &&& all_pass(start, writes, writes.len() as int)
    &&& after == apply_all(start, writes, writes.len() as int)
}

} // verus!
