//! Where the parts of an account live in the trie.
//!
//! The key of a part is a stem followed by a sub-index. The stem is derived
//! from the account's address and a tree index by a commitment over the
//! first five basis points; the five header fields share tree index 0.
use vstd::prelude::*;
use crate::account::{Address, U256};
use crate::commitment::{commit_sparse, lemma_sum_seq_push, sparse_terms};
use crate::curve::{le_value, sum_seq, Curve};
use crate::numbers::{
    le_bytes, lemma_le_bytes_len, lemma_le_bytes_of_le_value, lemma_le_value_concat,
    lemma_le_value_push, lemma_le_value_zeros, pow256, u64_to_le_bytes32,
};
use crate::primitives::{Stem, TrieKey, TrieValue};

verus! {

pub const VERSION_LEAF_KEY: u8 = 0;

pub const BALANCE_LEAF_KEY: u8 = 1;

pub const NONCE_LEAF_KEY: u8 = 2;

pub const CODE_HASH_LEAF_KEY: u8 = 3;

pub const CODE_SIZE_LEAF_KEY: u8 = 4;

/// Sub-index of storage slot 0 in the header stem.
pub const HEADER_STORAGE_OFFSET: u8 = 64;

/// Position of code chunk 0, counted in sub-indices from the header stem on.
pub const CODE_OFFSET: usize = 128;

/// Number of bytes of code in a chunk.
pub const CODE_CHUNK_SIZE: usize = 31;

/// The address as 32 bytes: 12 zero bytes, then the address.
pub open spec fn address32(address: Seq<u8>) -> Seq<u8> {
    Seq::new(12, |i: int| 0u8) + address
}

/// The terms of the commitment that a stem is derived from which depend on
/// the address alone: the constant `2 + 256 · 64` and the two halves of the
/// padded address, each half read as a little-endian number.
pub open spec fn address_terms<C: Curve>(address: Seq<u8>) -> Seq<C::Elem> {
    seq![
        C::basis_mul(0, 16386nat % C::order()),
        C::basis_mul(1, le_value(address32(address).subrange(0, 16)) % C::order()),
        C::basis_mul(2, le_value(address32(address).subrange(16, 32)) % C::order()),
    ]
}

/// The five terms of the commitment that a stem is derived from: those of
/// the address, and the two halves of the tree index, each half read as a
/// little-endian number.
pub open spec fn tree_key_terms<C: Curve>(address: Seq<u8>, tree_index: Seq<u8>) -> Seq<C::Elem> {
    address_terms::<C>(address).push(
        C::basis_mul(3, le_value(tree_index.subrange(0, 16)) % C::order()),
    ).push(C::basis_mul(4, le_value(tree_index.subrange(16, 32)) % C::order()))
}

/// The stem for an address and a tree index of 32 bytes: the first 31 bytes
/// of the little-endian spelling of the scalar that the commitment maps to.
pub open spec fn tree_key_stem<C: Curve>(address: Seq<u8>, tree_index: Seq<u8>) -> Seq<u8> {
    le_bytes(C::hash(sum_seq::<C>(tree_key_terms::<C>(address, tree_index))), 32).subrange(0, 31)
}

/// The key for an address, a tree index and a sub-index.
pub open spec fn tree_key<C: Curve>(address: Seq<u8>, tree_index: Seq<u8>, sub_index: u8) -> Seq<
    u8,
> {
    tree_key_stem::<C>(address, tree_index).push(sub_index)
}

/// The key of a header field of an account.
pub open spec fn header_key<C: Curve>(address: Seq<u8>, sub_index: u8) -> Seq<u8> {
    tree_key::<C>(address, le_bytes(0, 32), sub_index)
}

/// The key of code chunk `chunk` of an account.
pub open spec fn code_chunk_key<C: Curve>(address: Seq<u8>, chunk: nat) -> Seq<u8> {
    tree_key::<C>(address, le_bytes((128 + chunk) / 256, 32), ((128 + chunk) % 256) as u8)
}

/// The number of bytes that the instruction `opcode` pushes: 1 to 32 for
/// `PUSH1` to `PUSH32`, and 0 for every other instruction.
pub open spec fn push_len(opcode: u8) -> int {
    if 0x60 <= opcode <= 0x7f {
        opcode - 0x5f
    } else {
        0
    }
}

/// Where `start` is the position of an instruction: the number of bytes of
/// push data from position `target` on until the next instruction, which
/// is 0 if `target` is the position of an instruction itself.
pub open spec fn push_data_left(code: Seq<u8>, start: int, target: int) -> int
    decreases target - start,
{
    if start < 0 || start >= code.len() || start >= target {
        0
    } else {
        let pushed = push_len(code[start]);
        if target <= start + pushed {
            start + pushed - target + 1
        } else {
            push_data_left(code, start + 1 + pushed, target)
        }
    }
}

/// Number of chunks that code of length `len` is cut into.
pub open spec fn chunk_count(len: nat) -> nat {
    (len + 30) / 31
}

/// Chunk `chunk` of `code`: one byte that says how many of the chunk's first
/// bytes are push data (at most 31), and the 31 bytes of code from position
/// `31 · chunk` on, zero where the code has ended.
pub open spec fn code_chunk(code: Seq<u8>, chunk: int) -> Seq<u8> {
    let left = push_data_left(code, 0, 31 * chunk);
    seq![
        (if left < 31 {
            left
        } else {
            31
        }) as u8,
    ] + Seq::new(
        31,
        |k: int|
            if 31 * chunk + k < code.len() {
                code[31 * chunk + k]
            } else {
                0u8
            },
    )
}

/// The number of bytes of push data from position `target` on until the
/// next instruction of `code`.
pub fn push_data_at(code: &[u8], target: usize) -> (r: usize)
    ensures
        r == push_data_left(code@, 0, target as int),
        r <= 32,
{
    let mut start: usize = 0;
    while start < code.len() && start < target
        invariant
            push_data_left(code@, 0, target as int) == push_data_left(
                code@,
                start as int,
                target as int,
            ),
        decreases code@.len() - start,
    {
        let opcode = code[start];
        let pushed: usize = if 0x60 <= opcode && opcode <= 0x7f {
            (opcode - 0x5f) as usize
        } else {
            0
        };
        if target - start <= pushed {
            return pushed - (target - start) + 1;
        }
        if code.len() - start <= pushed + 1 {
            // the push data runs to the end of the code or beyond
            assert(push_data_left(code@, start + 1 + pushed, target as int) == 0);
            return 0;
        }
        start = start + 1 + pushed;
    }
    0
}

/// The tree index of storage slot `slot`: 0 for the first 64 slots, which
/// live in the header stem, and `(256^31 + slot) / 256` for every other slot.
pub open spec fn storage_tree_index(slot: nat) -> nat {
    if slot < 64 {
        0
    } else {
        pow256(30) + slot / 256
    }
}

/// The sub-index of storage slot `slot`.
pub open spec fn storage_sub_index(slot: nat) -> u8 {
    if slot < 64 {
        (64 + slot) as u8
    } else {
        (slot % 256) as u8
    }
}

/// The key of storage slot `slot` of an account.
pub open spec fn storage_key<C: Curve>(address: Seq<u8>, slot: nat) -> Seq<u8> {
    tree_key::<C>(address, le_bytes(storage_tree_index(slot), 32), storage_sub_index(slot))
}

/// The keys of an account.
pub struct AccountStorageLayout<C: Curve> {
    pub(crate) address: Address,
    pub(crate) base: C::Point,
    pub(crate) header_stem: Stem,
}

impl<C: Curve> AccountStorageLayout<C> {
    /// The address of the account.
    pub open(crate) spec fn spec_address(self) -> Seq<u8> {
        self.address@
    }

    /// The layout holds the commitment to the address part of its keys, and
    /// the stem of the header.
    pub open(crate) spec fn wf(self) -> bool {
        &&& C::elem(&self.base) == sum_seq::<C>(address_terms::<C>(self.address@))
        &&& self.header_stem@ == tree_key_stem::<C>(self.address@, le_bytes(0, 32))
    }

    /// The layout of the account at `address`.
    pub fn new(address: Address) -> (r: Self)
        ensures
            r.wf(),
            r.spec_address() == address@,
    {
        let mut padded = [0u8; 32];
        let mut i: usize = 0;
        while i < 20
            invariant
                i <= 20,
                forall|k: int| 0 <= k < 12 ==> padded[k] == 0,
                forall|k: int| 0 <= k < i ==> padded[12 + k] == address.bytes[k],
            decreases 20 - i,
        {
            padded[12 + i] = address.bytes[i];
            i += 1;
        }
        assert(padded@ =~= address32(address@));
        let mut low = [0u8; 16];
        let mut high = [0u8; 16];
        let mut k: usize = 0;
        while k < 16
            invariant
                k <= 16,
                forall|j: int| 0 <= j < k ==> low[j] == padded[j],
                forall|j: int| 0 <= j < k ==> high[j] == padded[16 + j],
            decreases 16 - k,
        {
            low[k] = padded[k];
            high[k] = padded[16 + k];
            k += 1;
        }
        assert(low@ =~= padded@.subrange(0, 16));
        assert(high@ =~= padded@.subrange(16, 32));
        let marker: [u8; 2] = [2u8, 64u8];
        proof {
            reveal_with_fuel(le_value, 3);
            assert(le_value(marker@) == 16386);
        }
        let entries: [(usize, C::Scalar); 3] = [
            (0, C::scalar_from_le_bytes(&marker)),
            (1, C::scalar_from_le_bytes(&low)),
            (2, C::scalar_from_le_bytes(&high)),
        ];
        let base = commit_sparse::<C>(&entries);
        proof {
            assert(sparse_terms::<C>(entries@) =~= address_terms::<C>(address@));
        }
        let zero_index = u64_to_le_bytes32(0);
        let header_stem = stem_from_base::<C>(Ghost(address@), &base, &zero_index);
        AccountStorageLayout { address, base, header_stem }
    }

    /// The stem for `tree_index`.
    pub fn stem_at(&self, tree_index: &[u8; 32]) -> (r: Stem)
        requires
            self.wf(),
        ensures
            r@ == tree_key_stem::<C>(self.spec_address(), tree_index@),
    {
        stem_from_base::<C>(Ghost(self.address@), &self.base, tree_index)
    }

    /// The key of header field `sub_index`.
    fn header_field_key(&self, sub_index: u8) -> (r: TrieKey)
        requires
            self.wf(),
        ensures
            r@ == header_key::<C>(self.spec_address(), sub_index),
    {
        TrieKey::from_stem_and_suffix(&self.header_stem, sub_index)
    }

    /// The key of the account's version.
    pub fn version_key(&self) -> (r: TrieKey)
        requires
            self.wf(),
        ensures
            r@ == header_key::<C>(self.spec_address(), VERSION_LEAF_KEY),
    {
        self.header_field_key(VERSION_LEAF_KEY)
    }

    /// The key of the account's balance.
    pub fn balance_key(&self) -> (r: TrieKey)
        requires
            self.wf(),
        ensures
            r@ == header_key::<C>(self.spec_address(), BALANCE_LEAF_KEY),
    {
        self.header_field_key(BALANCE_LEAF_KEY)
    }

    /// The key of the account's nonce.
    pub fn nonce_key(&self) -> (r: TrieKey)
        requires
            self.wf(),
        ensures
            r@ == header_key::<C>(self.spec_address(), NONCE_LEAF_KEY),
    {
        self.header_field_key(NONCE_LEAF_KEY)
    }

    /// The key of the digest of the account's code.
    pub fn code_hash_key(&self) -> (r: TrieKey)
        requires
            self.wf(),
        ensures
            r@ == header_key::<C>(self.spec_address(), CODE_HASH_LEAF_KEY),
    {
        self.header_field_key(CODE_HASH_LEAF_KEY)
    }

    /// The key of the length of the account's code.
    pub fn code_size_key(&self) -> (r: TrieKey)
        requires
            self.wf(),
        ensures
            r@ == header_key::<C>(self.spec_address(), CODE_SIZE_LEAF_KEY),
    {
        self.header_field_key(CODE_SIZE_LEAF_KEY)
    }

    /// The key of code chunk `chunk`.
    pub fn code_key(&self, chunk: usize) -> (r: TrieKey)
        requires
            self.wf(),
            chunk <= usize::MAX - 128,
        ensures
            r@ == code_chunk_key::<C>(self.spec_address(), chunk as nat),
    {
        let position = CODE_OFFSET + chunk;
        let tree_index = u64_to_le_bytes32((position / 256) as u64);
        let stem = self.stem_at(&tree_index);
        TrieKey::from_stem_and_suffix(&stem, (position % 256) as u8)
    }
}

impl<C: Curve> AccountStorageLayout<C> {
    /// The code cut into chunks, each with its key.
    pub fn chunkify_code(&self, code: &[u8]) -> (r: Vec<(TrieKey, TrieValue)>)
        requires
            self.wf(),
            code@.len() <= usize::MAX - 256,
        ensures
            r@.len() == chunk_count(code@.len()),
            forall|i: int|
                0 <= i < r@.len() ==> (#[trigger] r@[i]).0@ == code_chunk_key::<C>(
                    self.spec_address(),
                    i as nat,
                ) && r@[i].1@ == code_chunk(code@, i),
    {
        let count = (code.len() + 30) / CODE_CHUNK_SIZE;
        let mut chunks: Vec<(TrieKey, TrieValue)> = Vec::new();
        let mut chunk: usize = 0;
        while chunk < count
            invariant
                chunk <= count,
                count == chunk_count(code@.len()),
                code@.len() <= usize::MAX - 256,
                self.wf(),
                chunks@.len() == chunk,
                forall|i: int|
                    0 <= i < chunk ==> (#[trigger] chunks@[i]).0@ == code_chunk_key::<C>(
                        self.spec_address(),
                        i as nat,
                    ) && chunks@[i].1@ == code_chunk(code@, i),
            decreases count - chunk,
        {
            let first = CODE_CHUNK_SIZE * chunk;
            let left = push_data_at(code, first);
            let mut bytes = [0u8; 32];
            bytes[0] = if left < 31 {
                left as u8
            } else {
                31
            };
            let ghost wanted = code_chunk(code@, chunk as int);
            let mut k: usize = 0;
            while k < 31
                invariant
                    k <= 31,
                    first == 31 * chunk,
                    first + 31 <= usize::MAX,
                    wanted == code_chunk(code@, chunk as int),
                    bytes@[0] == wanted[0],
                    forall|j: int| 1 <= j < 1 + k ==> bytes@[j] == wanted[j],
                decreases 31 - k,
            {
                bytes[1 + k] = if first + k < code.len() {
                    code[first + k]
                } else {
                    0
                };
                k += 1;
            }
            assert(bytes@ =~= code_chunk(code@, chunk as int));
            chunks.push((self.code_key(chunk), TrieValue::new(bytes)));
            chunk += 1;
        }
        chunks
    }

    /// The key of storage slot `slot`.
    pub fn storage_slot_key(&self, slot: &U256) -> (r: TrieKey)
        requires
            self.wf(),
        ensures
            r@ == storage_key::<C>(self.spec_address(), slot@),
    {
        let bytes = slot.to_le_bytes();
        let mut high_zero = true;
        let mut i: usize = 1;
        while i < 32
            invariant
                1 <= i <= 32,
                high_zero == (forall|k: int| 1 <= k < i ==> bytes[k] == 0),
            decreases 32 - i,
        {
            if bytes[i] != 0 {
                high_zero = false;
            }
            i += 1;
        }
        proof {
            let rest = bytes@.drop_first();
            assert(le_value(bytes@) == bytes[0] as nat + 256 * le_value(rest));
            if high_zero {
                assert forall|k: int| 0 <= k < rest.len() implies rest[k] == 0 by {
                    assert(rest[k] == bytes[k + 1]);
                }
                lemma_le_value_zeros(rest);
            } else {
                let k = choose|k: int| 1 <= k < 32 && bytes[k] != 0;
                assert(rest[k - 1] == bytes[k]);
                lemma_le_value_positive(rest, k - 1);
            }
        }
        if high_zero && bytes[0] < 64 {
            return self.header_field_key(HEADER_STORAGE_OFFSET + bytes[0]);
        }
        let mut tree_index = [0u8; 32];
        let mut k: usize = 0;
        while k < 30
            invariant
                k <= 30,
                forall|j: int| 0 <= j < k ==> tree_index[j] == bytes[j + 1],
                forall|j: int| 30 <= j < 32 ==> tree_index[j] == 0,
            decreases 30 - k,
        {
            tree_index[k] = bytes[k + 1];
            k += 1;
        }
        let top: u16 = bytes[31] as u16 + 1;
        tree_index[30] = (top % 256) as u8;
        tree_index[31] = (top / 256) as u8;
        proof {
            let rest = bytes@.drop_first();
            let low = rest.subrange(0, 30);
            assert(rest =~= low.push(bytes[31]));
            lemma_le_value_push(low, bytes[31]);
            assert(tree_index@ =~= low.push(tree_index[30]).push(tree_index[31]));
            lemma_le_value_push(low, tree_index[30]);
            lemma_le_value_push(low.push(tree_index[30]), tree_index[31]);
            assert(pow256(31) == 256 * pow256(30));
            let w = pow256(30);
            let x = bytes[31] as nat;
            let a = tree_index[30] as nat;
            let b = tree_index[31] as nat;
            assert(a + 256 * b == x + 1);
            assert(w * a + (256 * w) * b == w * x + w) by (nonlinear_arith)
                requires
                    a + 256 * b == x + 1,
            ;
            assert(le_value(tree_index@) == pow256(30) + le_value(rest));
            assert(le_value(bytes@) / 256 == le_value(rest)) by {
                vstd::arithmetic::div_mod::lemma_fundamental_div_mod_converse(
                    le_value(bytes@) as int,
                    256,
                    le_value(rest) as int,
                    bytes[0] as int,
                );
            }
            assert(le_value(bytes@) % 256 == bytes[0] as nat) by {
                vstd::arithmetic::div_mod::lemma_fundamental_div_mod_converse(
                    le_value(bytes@) as int,
                    256,
                    le_value(rest) as int,
                    bytes[0] as int,
                );
            }
            lemma_le_bytes_of_le_value(tree_index@);
        }
        let stem = self.stem_at(&tree_index);
        TrieKey::from_stem_and_suffix(&stem, bytes[0])
    }
}

/// A byte string with a byte that is not zero spells a number that is not zero.
pub proof fn lemma_le_value_positive(bytes: Seq<u8>, k: int)
    requires
        0 <= k < bytes.len(),
        bytes[k] != 0,
    ensures
        le_value(bytes) > 0,
    decreases bytes.len(),
{
    if k > 0 {
        assert(bytes.drop_first()[k - 1] == bytes[k]);
        lemma_le_value_positive(bytes.drop_first(), k - 1);
    }
}

/// The stem for a tree index, from the commitment to the address part.
fn stem_from_base<C: Curve>(
    Ghost(address): Ghost<Seq<u8>>,
    base: &C::Point,
    tree_index: &[u8; 32],
) -> (r: Stem)
    requires
        C::elem(base) == sum_seq::<C>(address_terms::<C>(address)),
    ensures
        r@ == tree_key_stem::<C>(address, tree_index@),
{
    let mut low = [0u8; 16];
    let mut high = [0u8; 16];
    let mut k: usize = 0;
    while k < 16
        invariant
            k <= 16,
            forall|j: int| 0 <= j < k ==> low[j] == tree_index[j],
            forall|j: int| 0 <= j < k ==> high[j] == tree_index[16 + j],
        decreases 16 - k,
    {
        low[k] = tree_index[k];
        high[k] = tree_index[16 + k];
        k += 1;
    }
    assert(low@ =~= tree_index@.subrange(0, 16));
    assert(high@ =~= tree_index@.subrange(16, 32));
    let low_term = C::commit_single(3, &C::scalar_from_le_bytes(&low));
    let high_term = C::commit_single(4, &C::scalar_from_le_bytes(&high));
    let point = C::point_add(&C::point_add(base, &low_term), &high_term);
    proof {
        let three = address_terms::<C>(address);
        let low_elem = C::basis_mul(3, le_value(tree_index@.subrange(0, 16)) % C::order());
        let high_elem = C::basis_mul(4, le_value(tree_index@.subrange(16, 32)) % C::order());
        lemma_sum_seq_push::<C>(three, low_elem);
        lemma_sum_seq_push::<C>(three.push(low_elem), high_elem);
    }
    let hash = C::map_to_scalar_field(&point);
    let bytes = C::scalar_to_le_bytes(&hash);
    proof {
        lemma_le_bytes_of_le_value(bytes@);
    }
    let mut stem = [0u8; 31];
    let mut i: usize = 0;
    while i < 31
        invariant
            i <= 31,
            forall|j: int| 0 <= j < i ==> stem[j] == bytes[j],
        decreases 31 - i,
    {
        stem[i] = bytes[i];
        i += 1;
    }
    assert(stem@ =~= bytes@.subrange(0, 31));
    Stem::new(stem)
}

} // verus!
