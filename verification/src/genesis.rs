//! The genesis allocation, and the state diff that seeds the trie with it.
use vstd::prelude::*;
use crate::account::{Address, U256};
use crate::curve::Curve;
use crate::hashing::{keccak256, keccak256_digest};
use crate::numbers::le_bytes;
use crate::primitives::{
    bytes_less, key_stem, key_suffix, lemma_bytes_less_total, lemma_bytes_less_transitive, Stem,
    TrieKey, TrieValue,
};
use crate::storage::{
    chunk_count, code_chunk, code_chunk_key, header_key, storage_key, AccountStorageLayout,
};
use crate::witness::{
    state_diff_view, stem_diff_view, suffix_diff_view, StateDiff, StemDiffModel, StemStateDiff,
    SuffixStateDiff,
};

verus! {

/// What the genesis allocates to one account.
#[derive(Debug, Clone, PartialEq, Eq)]
pub struct AccountAlloc {
    pub balance: U256,
    pub nonce: Option<U256>,
    pub code: Option<Vec<u8>>,
    pub storage: Option<Vec<(U256, TrieValue)>>,
}

/// The genesis allocation, account by account.
#[derive(Debug, Clone, PartialEq, Eq)]
pub struct GenesisConfig {
    pub alloc: Vec<(Address, AccountAlloc)>,
}

/// A write of the genesis: a 32-byte key and a 32-byte value.
pub type KeyValue = (Seq<u8>, Seq<u8>);

/// The stems come in byte order, each once.
pub open spec fn sorted_by_stem(diffs: Seq<StemDiffModel>) -> bool {
    forall|i: int, j: int|
        0 <= i < j < diffs.len() ==> bytes_less(
            (#[trigger] diffs[i]).stem,
            (#[trigger] diffs[j]).stem,
        )
}

/// The first position from `from` on whose stem does not come before `stem`.
pub open spec fn lower_bound(diffs: Seq<StemDiffModel>, stem: Seq<u8>, from: int) -> int
    decreases diffs.len() - from,
{
    if from < 0 || from >= diffs.len() || !bytes_less(diffs[from].stem, stem) {
        from
    } else {
        lower_bound(diffs, stem, from + 1)
    }
}

/// The diffs with one more write: the write joins the diffs of its stem at
/// their end, or, if its stem is new, makes the diffs of its stem at the
/// place of the stem in byte order. The value before the write is none.
pub open spec fn insert_write(diffs: Seq<StemDiffModel>, key: Seq<u8>, value: Seq<u8>) -> Seq<
    StemDiffModel,
> {
    let stem = key_stem(key);
    let entry = (key_suffix(key), None::<Seq<u8>>, Some(value));
    let at = lower_bound(diffs, stem, 0);
    if at < diffs.len() && diffs[at].stem == stem {
        diffs.update(
            at,
            StemDiffModel { stem, suffix_diffs: diffs[at].suffix_diffs.push(entry) },
        )
    } else {
        diffs.insert(at, StemDiffModel { stem, suffix_diffs: seq![entry] })
    }
}

/// The writes grouped by stem: each write inserted in turn.
pub open spec fn grouped(writes: Seq<KeyValue>) -> Seq<StemDiffModel>
    decreases writes.len(),
{
    if writes.len() == 0 {
        Seq::empty()
    } else {
        insert_write(grouped(writes.drop_last()), writes.last().0, writes.last().1)
    }
}

/// The lower bound is in range, the stems before it come before `stem`, and the stem at it does not.
pub proof fn lemma_lower_bound(diffs: Seq<StemDiffModel>, stem: Seq<u8>, from: int)
    requires
        0 <= from <= diffs.len(),
    ensures
        from <= lower_bound(diffs, stem, from) <= diffs.len(),
        forall|i: int|
            from <= i < lower_bound(diffs, stem, from) ==> bytes_less(
                (#[trigger] diffs[i]).stem,
                stem,
            ),
        lower_bound(diffs, stem, from) < diffs.len() ==> !bytes_less(
            diffs[lower_bound(diffs, stem, from)].stem,
            stem,
        ),
    decreases diffs.len() - from,
{
    if from < diffs.len() && bytes_less(diffs[from].stem, stem) {
        lemma_lower_bound(diffs, stem, from + 1);
    }
}

/// Inserting a write keeps the stems in byte order.
pub proof fn lemma_insert_keeps_sorted(diffs: Seq<StemDiffModel>, key: Seq<u8>, value: Seq<u8>)
    requires
        sorted_by_stem(diffs),
        key.len() == 32,
        forall|i: int| 0 <= i < diffs.len() ==> (#[trigger] diffs[i]).stem.len() == 31,
    ensures
        sorted_by_stem(insert_write(diffs, key, value)),
        forall|i: int|
            0 <= i < insert_write(diffs, key, value).len() ==> (#[trigger] insert_write(
                diffs,
                key,
                value,
            )[i]).stem.len() == 31,
{
    let stem = key_stem(key);
    let at = lower_bound(diffs, stem, 0);
    let after = insert_write(diffs, key, value);
    lemma_lower_bound(diffs, stem, 0);
    if at < diffs.len() && diffs[at].stem == stem {
        assert forall|i: int, j: int| 0 <= i < j < after.len() implies bytes_less(
            (#[trigger] after[i]).stem,
            (#[trigger] after[j]).stem,
        ) by {
            assert(after[i].stem == diffs[i].stem);
            assert(after[j].stem == diffs[j].stem);
        }
    } else {
        assert forall|i: int, j: int| 0 <= i < j < after.len() implies bytes_less(
            (#[trigger] after[i]).stem,
            (#[trigger] after[j]).stem,
        ) by {
            if j < at {
                assert(after[i] == diffs[i] && after[j] == diffs[j]);
            } else if i > at {
                assert(after[i] == diffs[i - 1] && after[j] == diffs[j - 1]);
            } else if j == at {
                assert(after[i] == diffs[i]);
            } else if i == at {
                // the diffs from `at` on come after the new stem
                assert(after[j] == diffs[j - 1]);
                assert(diffs[at].stem.len() == 31);
                lemma_bytes_less_total(diffs[at].stem, stem);
                if j - 1 > at {
                    lemma_bytes_less_transitive(stem, diffs[at].stem, diffs[j - 1].stem);
                }
            } else {
                assert(after[i] == diffs[i] && after[j] == diffs[j - 1]);
                assert(at <= j - 1);
                if i < at {
                    if at < j - 1 || i < j - 1 {
                    }
                }
            }
        }
    }
}

/// Adds the write of `value` under `key` to the diffs.
pub fn insert_state_diff(state_diffs: &mut Vec<StemStateDiff>, key: &TrieKey, value: TrieValue)
    requires
        sorted_by_stem(state_diff_view(old(state_diffs)@)),
    ensures
        state_diff_view(final(state_diffs)@) == insert_write(
            state_diff_view(old(state_diffs)@),
            key@,
            value@,
        ),
        sorted_by_stem(state_diff_view(final(state_diffs)@)),
{
    let ghost before = state_diff_view(state_diffs@);
    let suffix_state_diff = SuffixStateDiff {
        suffix: key.suffix(),
        current_value: None,
        new_value: Some(value),
    };
    let stem = key.stem();
    let mut at: usize = 0;
    while at < state_diffs.len() && state_diffs[at].stem.less_than(&stem)
        invariant
            at <= state_diffs@.len(),
            state_diffs@ == old(state_diffs)@,
            before == state_diff_view(state_diffs@),
            lower_bound(before, stem@, 0) == lower_bound(before, stem@, at as int),
        decreases state_diffs@.len() - at,
    {
        assert(before[at as int].stem == state_diffs@[at as int].stem@);
        at += 1;
    }
    proof {
        if at < state_diffs@.len() {
            assert(before[at as int].stem == state_diffs@[at as int].stem@);
        }
        assert(lower_bound(before, stem@, 0) == at);
        key.lemma_len();
        assert forall|i: int| 0 <= i < before.len() implies (#[trigger] before[i]).stem.len()
            == 31 by {
            state_diffs@[i].stem.lemma_len();
        }
        lemma_insert_keeps_sorted(before, key@, value@);
    }
    if at < state_diffs.len() && state_diffs[at].stem.equals(&stem) {
        let ghost earlier = state_diffs@[at as int].suffix_diffs@;
        state_diffs[at].suffix_diffs.push(suffix_state_diff);
        proof {
            assert(state_diff_view(state_diffs@)[at as int].suffix_diffs =~= before[at as int].suffix_diffs.push(
                suffix_diff_view(suffix_state_diff),
            ));
            assert forall|i: int| 0 <= i < state_diffs@.len() && i != at implies state_diff_view(
                state_diffs@,
            )[i] == before[i] by {
                assert(state_diffs@[i] == old(state_diffs)@[i]);
            }
            assert(state_diff_view(state_diffs@) =~= insert_write(before, key@, value@));
        }
    } else {
        let mut suffix_diffs: Vec<SuffixStateDiff> = Vec::new();
        suffix_diffs.push(suffix_state_diff);
        let fresh = StemStateDiff { stem, suffix_diffs };
        proof {
            assert(stem_diff_view(fresh).suffix_diffs =~= seq![
                suffix_diff_view(suffix_state_diff),
            ]);
        }
        state_diffs.insert(at, fresh);
        proof {
            assert(state_diff_view(state_diffs@) =~= insert_write(before, key@, value@));
        }
    }
}

/// The account's code, if it has any, is short enough for its chunks to be counted.
pub open spec fn code_fits(account: (Address, AccountAlloc)) -> bool {
    match account.1.code {
        Some(code) => code@.len() <= usize::MAX - 256,
        None => true,
    }
}

/// The code of an account as bytes, if it has code.
pub open spec fn code_view(code: Option<Vec<u8>>) -> Option<Seq<u8>> {
    match code {
        Some(bytes) => Some(bytes@),
        None => None,
    }
}

/// The writes for the header fields that every account has: version 0, the
/// balance, and the nonce, which is 0 if none is given.
pub open spec fn header_writes<C: Curve>(address: Seq<u8>, alloc: AccountAlloc) -> Seq<KeyValue> {
    seq![
        (header_key::<C>(address, 0), le_bytes(0, 32)),
        (header_key::<C>(address, 1), le_bytes(alloc.balance@, 32)),
        (
            header_key::<C>(address, 2),
            le_bytes(
                match alloc.nonce {
                    Some(nonce) => nonce@,
                    None => 0,
                },
                32,
            ),
        ),
    ]
}

/// The writes for the code: for an account without code, the digest of the
/// empty code; for one with code, the digest of the code, its length, and
/// every chunk of it.
pub open spec fn code_writes<C: Curve>(address: Seq<u8>, code: Option<Seq<u8>>) -> Seq<KeyValue> {
    match code {
        None => seq![(header_key::<C>(address, 3), keccak256_digest(Seq::empty()))],
        Some(bytes) => seq![
            (header_key::<C>(address, 3), keccak256_digest(bytes)),
            (header_key::<C>(address, 4), le_bytes(bytes.len(), 32)),
        ] + Seq::new(
            chunk_count(bytes.len()),
            |i: int| (code_chunk_key::<C>(address, i as nat), code_chunk(bytes, i)),
        ),
    }
}

/// The writes for the storage: one for each slot given, in the order given.
pub open spec fn storage_writes<C: Curve>(
    address: Seq<u8>,
    storage: Option<Vec<(U256, TrieValue)>>,
) -> Seq<KeyValue> {
    match storage {
        None => Seq::empty(),
        Some(slots) => Seq::new(
            slots@.len(),
            |i: int| (storage_key::<C>(address, slots@[i].0@), slots@[i].1@),
        ),
    }
}

/// The writes for one account: header, code, storage.
pub open spec fn account_writes<C: Curve>(address: Seq<u8>, alloc: AccountAlloc) -> Seq<KeyValue> {
    header_writes::<C>(address, alloc) + code_writes::<C>(address, code_view(alloc.code))
        + storage_writes::<C>(address, alloc.storage)
}

/// The writes for the first `n` accounts, in the order of the accounts.
pub open spec fn genesis_writes<C: Curve>(alloc: Seq<(Address, AccountAlloc)>, n: int) -> Seq<
    KeyValue,
>
    decreases n,
{
    if n <= 0 {
        Seq::empty()
    } else {
        genesis_writes::<C>(alloc, n - 1) + account_writes::<C>(alloc[n - 1].0@, alloc[n - 1].1)
    }
}

/// Adds one write to the diffs and to the record of what was written.
fn emit(
    state_diffs: &mut Vec<StemStateDiff>,
    Ghost(written): Ghost<Seq<KeyValue>>,
    key: &TrieKey,
    value: TrieValue,
)
    requires
        sorted_by_stem(state_diff_view(old(state_diffs)@)),
        state_diff_view(old(state_diffs)@) == grouped(written),
    ensures
        sorted_by_stem(state_diff_view(final(state_diffs)@)),
        state_diff_view(final(state_diffs)@) == grouped(written.push((key@, value@))),
{
    assert(written.push((key@, value@)).drop_last() =~= written);
    insert_state_diff(state_diffs, key, value);
}

/// Adds the writes for the header fields of an account.
fn emit_header<C: Curve>(
    state_diffs: &mut Vec<StemStateDiff>,
    Ghost(written): Ghost<Seq<KeyValue>>,
    storage_layout: &AccountStorageLayout<C>,
    account_alloc: &AccountAlloc,
)
    requires
        storage_layout.wf(),
        sorted_by_stem(state_diff_view(old(state_diffs)@)),
        state_diff_view(old(state_diffs)@) == grouped(written),
    ensures
        sorted_by_stem(state_diff_view(final(state_diffs)@)),
        state_diff_view(final(state_diffs)@) == grouped(
            written + header_writes::<C>(storage_layout.spec_address(), *account_alloc),
        ),
{
    let ghost addr = storage_layout.spec_address();
    let ghost first = written.push((header_key::<C>(addr, 0), le_bytes(0, 32)));
    let ghost second = first.push((header_key::<C>(addr, 1), le_bytes(account_alloc.balance@, 32)));
    emit(state_diffs, Ghost(written), &storage_layout.version_key(), U256::zero().to_trie_value());
    emit(
        state_diffs,
        Ghost(first),
        &storage_layout.balance_key(),
        account_alloc.balance.to_trie_value(),
    );
    let nonce = match account_alloc.nonce {
        Some(nonce) => nonce,
        None => U256::zero(),
    };
    emit(state_diffs, Ghost(second), &storage_layout.nonce_key(), nonce.to_trie_value());
    proof {
        let third = second.push((header_key::<C>(addr, 2), le_bytes(nonce@, 32)));
        assert(third =~= written + header_writes::<C>(addr, *account_alloc));
    }
}

/// Adds the writes for the code of an account.
fn emit_code<C: Curve>(
    state_diffs: &mut Vec<StemStateDiff>,
    Ghost(written): Ghost<Seq<KeyValue>>,
    storage_layout: &AccountStorageLayout<C>,
    code: &Option<Vec<u8>>,
)
    requires
        storage_layout.wf(),
        code matches Some(bytes) ==> bytes@.len() <= usize::MAX - 256,
        sorted_by_stem(state_diff_view(old(state_diffs)@)),
        state_diff_view(old(state_diffs)@) == grouped(written),
    ensures
        sorted_by_stem(state_diff_view(final(state_diffs)@)),
        state_diff_view(final(state_diffs)@) == grouped(
            written + code_writes::<C>(storage_layout.spec_address(), code_view(*code)),
        ),
{
    let ghost addr = storage_layout.spec_address();
    match code {
        None => {
            let nothing: [u8; 0] = [];
            let digest = keccak256(&nothing);
            assert(nothing@ =~= Seq::<u8>::empty());
            emit(
                state_diffs,
                Ghost(written),
                &storage_layout.code_hash_key(),
                TrieValue::new(digest),
            );
            proof {
                let after = written.push(
                    (header_key::<C>(addr, 3), keccak256_digest(Seq::empty())),
                );
                assert(after =~= written + code_writes::<C>(addr, code_view(*code)));
            }
        },
        Some(code) => {
            let ghost first = written.push((header_key::<C>(addr, 3), keccak256_digest(code@)));
            let ghost second = first.push((header_key::<C>(addr, 4), le_bytes(code@.len(), 32)));
            let digest = keccak256(code.as_slice());
            emit(
                state_diffs,
                Ghost(written),
                &storage_layout.code_hash_key(),
                TrieValue::new(digest),
            );
            emit(
                state_diffs,
                Ghost(first),
                &storage_layout.code_size_key(),
                U256::from_u64(code.len() as u64).to_trie_value(),
            );
            let chunks = storage_layout.chunkify_code(code.as_slice());
            let mut c: usize = 0;
            proof {
                assert(second =~= second + Seq::new(
                    0,
                    |i: int| (code_chunk_key::<C>(addr, i as nat), code_chunk(code@, i)),
                ));
            }
            while c < chunks.len()
                invariant
                    c <= chunks@.len(),
                    chunks@.len() == chunk_count(code@.len()),
                    forall|i: int|
                        0 <= i < chunks@.len() ==> (#[trigger] chunks@[i]).0@
                            == code_chunk_key::<C>(addr, i as nat) && chunks@[i].1@ == code_chunk(
                            code@,
                            i,
                        ),
                    sorted_by_stem(state_diff_view(state_diffs@)),
                    state_diff_view(state_diffs@) == grouped(
                        second + Seq::new(
                            c as nat,
                            |i: int| (code_chunk_key::<C>(addr, i as nat), code_chunk(code@, i)),
                        ),
                    ),
                decreases chunks@.len() - c,
            {
                let ghost so_far = second + Seq::new(
                    c as nat,
                    |i: int| (code_chunk_key::<C>(addr, i as nat), code_chunk(code@, i)),
                );
                emit(state_diffs, Ghost(so_far), &chunks[c].0, chunks[c].1);
                proof {
                    assert(so_far.push((chunks@[c as int].0@, chunks@[c as int].1@)) =~= second
                        + Seq::new(
                        (c + 1) as nat,
                        |i: int| (code_chunk_key::<C>(addr, i as nat), code_chunk(code@, i)),
                    ));
                }
                c += 1;
            }
            proof {
                assert(second + Seq::new(
                    c as nat,
                    |i: int| (code_chunk_key::<C>(addr, i as nat), code_chunk(code@, i)),
                ) =~= written + code_writes::<C>(addr, Some(code@)));
            }
        },
    }
}

/// Adds the writes for the storage of an account.
fn emit_storage<C: Curve>(
    state_diffs: &mut Vec<StemStateDiff>,
    Ghost(written): Ghost<Seq<KeyValue>>,
    storage_layout: &AccountStorageLayout<C>,
    storage: &Option<Vec<(U256, TrieValue)>>,
)
    requires
        storage_layout.wf(),
        sorted_by_stem(state_diff_view(old(state_diffs)@)),
        state_diff_view(old(state_diffs)@) == grouped(written),
    ensures
        sorted_by_stem(state_diff_view(final(state_diffs)@)),
        state_diff_view(final(state_diffs)@) == grouped(
            written + storage_writes::<C>(storage_layout.spec_address(), *storage),
        ),
{
    let ghost addr = storage_layout.spec_address();
    match storage {
        Some(slots) => {
            let mut s: usize = 0;
            proof {
                assert(written =~= written + Seq::new(
                    0,
                    |i: int| (storage_key::<C>(addr, slots@[i].0@), slots@[i].1@),
                ));
            }
            while s < slots.len()
                invariant
                    s <= slots@.len(),
                    storage_layout.wf(),
                    storage_layout.spec_address() == addr,
                    sorted_by_stem(state_diff_view(state_diffs@)),
                    state_diff_view(state_diffs@) == grouped(
                        written + Seq::new(
                            s as nat,
                            |i: int| (storage_key::<C>(addr, slots@[i].0@), slots@[i].1@),
                        ),
                    ),
                decreases slots@.len() - s,
            {
                let ghost so_far = written + Seq::new(
                    s as nat,
                    |i: int| (storage_key::<C>(addr, slots@[i].0@), slots@[i].1@),
                );
                let key = storage_layout.storage_slot_key(&slots[s].0);
                emit(state_diffs, Ghost(so_far), &key, slots[s].1);
                proof {
                    assert(so_far.push((key@, slots@[s as int].1@)) =~= written + Seq::new(
                        (s + 1) as nat,
                        |i: int| (storage_key::<C>(addr, slots@[i].0@), slots@[i].1@),
                    ));
                }
                s += 1;
            }
            proof {
                assert(written + Seq::new(
                    s as nat,
                    |i: int| (storage_key::<C>(addr, slots@[i].0@), slots@[i].1@),
                ) =~= written + storage_writes::<C>(addr, *storage));
            }
        },
        None => {
            proof {
                assert(written =~= written + storage_writes::<C>(addr, *storage));
            }
        },
    }
}

impl GenesisConfig {
    /// The state diff that seeds the trie: every account's writes, grouped
    /// by stem, the stems in byte order.
    ///
    /// The result depends on the allocation alone: the same accounts in the
    /// same order give the same diff.
    pub fn generate_state_diff<C: Curve>(&self) -> (r: StateDiff)
        requires
            forall|i: int| 0 <= i < self.alloc@.len() ==> code_fits(#[trigger] self.alloc@[i]),
        ensures
            state_diff_view(r@) == grouped(
                genesis_writes::<C>(self.alloc@, self.alloc@.len() as int),
            ),
            sorted_by_stem(state_diff_view(r@)),
    {
        let mut state_diffs: Vec<StemStateDiff> = Vec::new();
        let mut a: usize = 0;
        proof {
            assert(state_diff_view(state_diffs@) =~= grouped(Seq::<KeyValue>::empty()));
        }
        while a < self.alloc.len()
            invariant
                a <= self.alloc@.len(),
                forall|i: int| 0 <= i < self.alloc@.len() ==> code_fits(#[trigger] self.alloc@[i]),
                sorted_by_stem(state_diff_view(state_diffs@)),
                state_diff_view(state_diffs@) == grouped(
                    genesis_writes::<C>(self.alloc@, a as int),
                ),
            decreases self.alloc@.len() - a,
        {
            let address = &self.alloc[a].0;
            let account_alloc = &self.alloc[a].1;
            let ghost earlier = genesis_writes::<C>(self.alloc@, a as int);
            let ghost header = header_writes::<C>(address@, *account_alloc);
            let ghost code = code_writes::<C>(address@, code_view(account_alloc.code));
            let ghost storage = storage_writes::<C>(address@, account_alloc.storage);
            assert(code_fits(self.alloc@[a as int]));
            let storage_layout = AccountStorageLayout::<C>::new(*address);
            emit_header::<C>(&mut state_diffs, Ghost(earlier), &storage_layout, account_alloc);
            emit_code::<C>(
                &mut state_diffs,
                Ghost(earlier + header),
                &storage_layout,
                &account_alloc.code,
            );
            emit_storage::<C>(
                &mut state_diffs,
                Ghost(earlier + header + code),
                &storage_layout,
                &account_alloc.storage,
            );
            proof {
                assert(earlier + header + code + storage =~= earlier + account_writes::<C>(
                    address@,
                    *account_alloc,
                ));
            }
            a += 1;
        }
        state_diffs
    }
}

} // verus!
