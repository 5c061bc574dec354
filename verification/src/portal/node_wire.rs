//! Nodes and proofs to bytes and back.
//!
//! A node goes on the wire as a container: its fields of fixed length in
//! their order, with a four-byte offset in the place of each field of
//! variable length, and then the fields of variable length.
use vstd::prelude::*;
use crate::curve::{le_value, Curve};
use crate::numbers::{
    le_bytes, lemma_le_bytes_len, lemma_le_bytes_of_le_value, lemma_le_value_of_le_bytes,
    u64_to_le_bytes, u64_to_le_bytes32,
};
use crate::path::TriePath;
use crate::portal::content::{PortalVerkleNode, PortalVerkleNodeWithProof, VerkleContentKey};
use crate::portal::nodes::{
    BranchBundleNode, BranchBundleNodeWithProof, BranchFragmentNode, BranchFragmentNodeWithProof,
    LeafBundleNode, LeafBundleNodeWithProof, LeafFragmentNode, LeafFragmentNodeWithProof,
};
use crate::portal::proofs::{IpaProof, MultiPointProof, TrieProof};
use crate::portal::sparse_vector::SparseVector;
use crate::portal::ssz::{lemma_decode_encoded, sparse_decoding, sparse_encoding};
use crate::portal::wire::{
    append_bytes, chunks_are_points, decode_sparse_points, decode_sparse_values,
    encode_sparse_points, encode_sparse_values, point_chunks, value_chunks,
};
use crate::primitives::Stem;

verus! {

/// Length of a multi-point proof on the wire.
pub const PROOF_LENGTH: usize = 576;

/// The encodings of the first `k` points, one after the other.
pub open spec fn points_encoding<C: Curve>(points: Seq<C::Point>, k: int) -> Seq<u8>
    decreases k,
{
    if k <= 0 {
        Seq::empty()
    } else {
        points_encoding::<C>(points, k - 1) + C::encoding(C::elem(&points[k - 1]))
    }
}

/// The encodings of `k` points are `32 · k` bytes long.
pub proof fn lemma_points_encoding_len<C: Curve>(points: Seq<C::Point>, k: int)
    requires
        0 <= k,
    ensures
        points_encoding::<C>(points, k).len() == 32 * k,
    decreases k,
{
    if k > 0 {
        lemma_points_encoding_len::<C>(points, k - 1);
        C::lemma_encoding_len(C::elem(&points[k - 1]));
    }
}

/// The encoding of a multi-point proof: the eight points of `cl`, the eight
/// points of `cr`, the final evaluation in 32 bytes, least significant
/// first, and the point `g_x`.
pub open spec fn proof_encoding<C: Curve>(proof: MultiPointProof<C>) -> Seq<u8> {
    points_encoding::<C>(proof.ipa_proof.cl@, 8) + points_encoding::<C>(proof.ipa_proof.cr@, 8)
        + le_bytes(C::scalar_value(&proof.ipa_proof.final_evaluation), 32) + C::encoding(
        C::elem(&proof.g_x),
    )
}

/// A multi-point proof is 576 bytes long on the wire.
pub proof fn lemma_proof_encoding_len<C: Curve>(proof: MultiPointProof<C>)
    ensures
        proof_encoding::<C>(proof).len() == 576,
{
    lemma_points_encoding_len::<C>(proof.ipa_proof.cl@, 8);
    lemma_points_encoding_len::<C>(proof.ipa_proof.cr@, 8);
    lemma_le_bytes_len(C::scalar_value(&proof.ipa_proof.final_evaluation), 32);
    C::lemma_encoding_len(C::elem(&proof.g_x));
}

/// The encoding of a fragment of a branch: its index, the offset 5, and its
/// children as a sparse vector.
pub open spec fn branch_fragment_encoding<C: Curve>(node: BranchFragmentNode<C>) -> Seq<u8> {
    seq![node.spec_fragment_index()] + le_bytes(5, 4) + sparse_encoding(
        point_chunks::<C>(node.spec_children().items()),
    )
}

/// The encoding of a fragment of a leaf: its index, the offset 5, and its
/// values as a sparse vector.
pub open spec fn leaf_fragment_encoding(node: LeafFragmentNode) -> Seq<u8> {
    seq![node.spec_fragment_index()] + le_bytes(5, 4) + sparse_encoding(
        value_chunks(node.spec_children().items()),
    )
}

/// The encoding of a bundle of a branch: the offset 580, the proof, and the
/// fragment commitments as a sparse vector.
pub open spec fn branch_bundle_encoding<C: Curve>(node: BranchBundleNode<C>) -> Seq<u8> {
    le_bytes(580, 4) + proof_encoding::<C>(node.spec_bundle_proof()) + sparse_encoding(
        point_chunks::<C>(node.spec_fragments().items()),
    )
}

/// The encoding of a bundle of a leaf: the marker in 8 bytes, the stem, the
/// offset 619, the proof, and the fragment commitments as a sparse vector.
pub open spec fn leaf_bundle_encoding<C: Curve>(node: LeafBundleNode<C>) -> Seq<u8> {
    le_bytes(node.spec_marker() as nat, 8) + node.spec_stem()@ + le_bytes(619, 4)
        + proof_encoding::<C>(node.spec_bundle_proof()) + sparse_encoding(
        point_chunks::<C>(node.spec_fragments().items()),
    )
}

/// The encoding of a trie proof: the offset 580, the multi-point proof, and
/// the commitments on the path.
pub open spec fn trie_proof_encoding<C: Curve>(proof: TrieProof<C>) -> Seq<u8> {
    le_bytes(580, 4) + proof_encoding::<C>(proof.multiproof) + points_encoding::<C>(
        proof.commitments_by_path@,
        proof.commitments_by_path@.len() as int,
    )
}

/// The four bytes of an offset.
pub fn encode_offset(offset: u32) -> (r: [u8; 4])
    ensures
        r@ == le_bytes(offset as nat, 4),
{
    let wide = u64_to_le_bytes(offset as u64);
    let mut bytes = [0u8; 4];
    let mut i: usize = 0;
    while i < 4
        invariant
            i <= 4,
            forall|k: int| 0 <= k < i ==> bytes[k] == wide[k],
        decreases 4 - i,
    {
        bytes[i] = wide[i];
        i += 1;
    }
    proof {
        lemma_le_bytes_of_le_value(wide@);
        reveal_with_fuel(le_bytes, 9);
        assert(bytes@ =~= le_bytes(offset as nat, 4));
    }
    bytes
}

/// Whether `bytes` hold `offset` at position `at`.
pub fn holds_offset(bytes: &[u8], at: usize, offset: u32) -> (r: bool)
    requires
        at + 4 <= bytes@.len(),
    ensures
        r == (bytes@.subrange(at as int, at + 4) == le_bytes(offset as nat, 4)),
{
    let wanted = encode_offset(offset);
    let length = bytes.len();
    let mut i: usize = 0;
    while i < 4
        invariant
            i <= 4,
            length == bytes@.len(),
            at + 4 <= length,
            wanted@ == le_bytes(offset as nat, 4),
            forall|k: int| 0 <= k < i ==> bytes@[at + k] == wanted[k],
        decreases 4 - i,
    {
        if bytes[at + i] != wanted[i] {
            assert(bytes@.subrange(at as int, at + 4)[i as int] != wanted@[i as int]);
            return false;
        }
        i += 1;
    }
    assert(bytes@.subrange(at as int, at + 4) =~= wanted@);
    true
}

/// The encodings of the points, one after the other.
pub fn encode_points<C: Curve>(points: &[C::Point]) -> (r: Vec<u8>)
    ensures
        r@ == points_encoding::<C>(points@, points@.len() as int),
{
    let mut bytes: Vec<u8> = Vec::new();
    let mut i: usize = 0;
    while i < points.len()
        invariant
            i <= points@.len(),
            bytes@ == points_encoding::<C>(points@, i as int),
        decreases points@.len() - i,
    {
        append_bytes(&mut bytes, &C::point_to_bytes(&points[i]));
        i += 1;
    }
    bytes
}

/// The encoding of a multi-point proof.
pub fn encode_proof<C: Curve>(proof: &MultiPointProof<C>) -> (r: Vec<u8>)
    ensures
        r@ == proof_encoding::<C>(*proof),
{
    let mut bytes = encode_points::<C>(&proof.ipa_proof.cl);
    let cr = encode_points::<C>(&proof.ipa_proof.cr);
    append_bytes(&mut bytes, cr.as_slice());
    let evaluation = C::scalar_to_le_bytes(&proof.ipa_proof.final_evaluation);
    proof {
        lemma_le_bytes_of_le_value(evaluation@);
    }
    append_bytes(&mut bytes, &evaluation);
    append_bytes(&mut bytes, &C::point_to_bytes(&proof.g_x));
    bytes
}

/// The encoding of a trie proof.
pub fn encode_trie_proof<C: Curve>(proof: &TrieProof<C>) -> (r: Vec<u8>)
    ensures
        r@ == trie_proof_encoding::<C>(*proof),
{
    let mut bytes: Vec<u8> = Vec::new();
    append_bytes(&mut bytes, &encode_offset(580));
    let multiproof = encode_proof::<C>(&proof.multiproof);
    append_bytes(&mut bytes, multiproof.as_slice());
    let commitments = encode_points::<C>(proof.commitments_by_path.as_slice());
    append_bytes(&mut bytes, commitments.as_slice());
    assert(bytes@ =~= trie_proof_encoding::<C>(*proof));
    bytes
}

/// The encoding of a fragment of a branch.
pub fn encode_branch_fragment<C: Curve>(node: &BranchFragmentNode<C>) -> (r: Vec<u8>)
    ensures
        r@ == branch_fragment_encoding::<C>(*node),
{
    let mut bytes: Vec<u8> = Vec::new();
    bytes.push(node.fragment_index());
    append_bytes(&mut bytes, &encode_offset(5));
    let children = encode_sparse_points::<C, 8>(node.children());
    append_bytes(&mut bytes, children.as_slice());
    assert(bytes@ =~= branch_fragment_encoding::<C>(*node));
    bytes
}

/// The encoding of a fragment of a leaf.
pub fn encode_leaf_fragment(node: &LeafFragmentNode) -> (r: Vec<u8>)
    ensures
        r@ == leaf_fragment_encoding(*node),
{
    let mut bytes: Vec<u8> = Vec::new();
    bytes.push(node.fragment_index());
    append_bytes(&mut bytes, &encode_offset(5));
    let children = encode_sparse_values::<8>(node.children());
    append_bytes(&mut bytes, children.as_slice());
    assert(bytes@ =~= leaf_fragment_encoding(*node));
    bytes
}

/// The encoding of a bundle of a branch.
pub fn encode_branch_bundle<C: Curve>(node: &BranchBundleNode<C>) -> (r: Vec<u8>)
    ensures
        r@ == branch_bundle_encoding::<C>(*node),
{
    let mut bytes: Vec<u8> = Vec::new();
    append_bytes(&mut bytes, &encode_offset(580));
    let bundle_proof = encode_proof::<C>(node.bundle_proof());
    append_bytes(&mut bytes, bundle_proof.as_slice());
    let fragments = encode_sparse_points::<C, 32>(node.fragments());
    append_bytes(&mut bytes, fragments.as_slice());
    assert(bytes@ =~= branch_bundle_encoding::<C>(*node));
    bytes
}

/// The encoding of a bundle of a leaf.
pub fn encode_leaf_bundle<C: Curve>(node: &LeafBundleNode<C>) -> (r: Vec<u8>)
    ensures
        r@ == leaf_bundle_encoding::<C>(*node),
{
    let mut bytes: Vec<u8> = Vec::new();
    let marker = u64_to_le_bytes(node.marker());
    proof {
        lemma_le_bytes_of_le_value(marker@);
    }
    append_bytes(&mut bytes, &marker);
    append_bytes(&mut bytes, node.stem().as_bytes());
    append_bytes(&mut bytes, &encode_offset(619));
    let bundle_proof = encode_proof::<C>(node.bundle_proof());
    append_bytes(&mut bytes, bundle_proof.as_slice());
    let fragments = encode_sparse_points::<C, 32>(node.fragments());
    append_bytes(&mut bytes, fragments.as_slice());
    assert(bytes@ =~= leaf_bundle_encoding::<C>(*node));
    bytes
}

/// The fragment of a branch that `bytes` encode, if they encode one.
pub fn decode_branch_fragment<C: Curve>(bytes: &[u8]) -> (r: Option<BranchFragmentNode<C>>)
    ensures
        r matches Some(node) ==> branch_fragment_encoding::<C>(node) == bytes@,
        r is None ==> forall|node: BranchFragmentNode<C>|
            #[trigger] branch_fragment_encoding::<C>(node) != bytes@,
{
    proof {
        assert forall|node: BranchFragmentNode<C>| #[trigger]
            branch_fragment_encoding::<C>(node) == bytes@ implies fragment_shape(
            bytes@,
            node.spec_fragment_index(),
            point_chunks::<C>(node.spec_children().items()),
        ) && chunks_are_points::<C>(point_chunks::<C>(node.spec_children().items())) by {
            node.spec_children().lemma_len();
            lemma_point_chunks_are_points::<C>(node.spec_children().items());
            lemma_fragment_shape(
                node.spec_fragment_index(),
                point_chunks::<C>(node.spec_children().items()),
            );
        }
    }
    if bytes.len() < 5 || !holds_offset(bytes, 1, 5) {
        return None;
    }
    let rest = slice_from(bytes, 5);
    match decode_sparse_points::<C, 8>(rest) {
        Some(children) => {
            let node = BranchFragmentNode::new(bytes[0], children);
            proof {
                crate::portal::ssz::lemma_encode_decoded(rest@, 8);
                assert(bytes@ =~= seq![bytes@[0]] + bytes@.subrange(1, 5) + rest@);
            }
            Some(node)
        },
        None => None,
    }
}

/// The fragment of a leaf that `bytes` encode, if they encode one.
pub fn decode_leaf_fragment(bytes: &[u8]) -> (r: Option<LeafFragmentNode>)
    ensures
        r matches Some(node) ==> leaf_fragment_encoding(node) == bytes@,
        r is None ==> forall|node: LeafFragmentNode| #[trigger]
            leaf_fragment_encoding(node) != bytes@,
{
    proof {
        assert forall|node: LeafFragmentNode| #[trigger]
            leaf_fragment_encoding(node) == bytes@ implies fragment_shape(
            bytes@,
            node.spec_fragment_index(),
            value_chunks(node.spec_children().items()),
        ) by {
            node.spec_children().lemma_len();
            assert forall|i: int| 0 <= i < 8 implies (#[trigger] value_chunks(
                node.spec_children().items(),
            )[i] matches Some(chunk) ==> chunk.len() == 32) by {
                match node.spec_children().items()[i] {
                    Some(value) => {
                        value.lemma_len();
                    },
                    None => {},
                }
            }
            lemma_fragment_shape(
                node.spec_fragment_index(),
                value_chunks(node.spec_children().items()),
            );
        }
    }
    if bytes.len() < 5 || !holds_offset(bytes, 1, 5) {
        return None;
    }
    let rest = slice_from(bytes, 5);
    match decode_sparse_values::<8>(rest) {
        Some(children) => {
            let node = LeafFragmentNode::new(bytes[0], children);
            proof {
                crate::portal::ssz::lemma_encode_decoded(rest@, 8);
                assert(bytes@ =~= seq![bytes@[0]] + bytes@.subrange(1, 5) + rest@);
            }
            Some(node)
        },
        None => None,
    }
}

/// What the bytes that encode a fragment with the given index and items look like.
pub open spec fn fragment_shape(bytes: Seq<u8>, index: u8, chunks: Seq<Option<Seq<u8>>>) -> bool {
    &&& bytes.len() >= 5
    &&& bytes[0] == index
    &&& bytes.subrange(1, 5) == le_bytes(5, 4)
    &&& sparse_decoding(bytes.subrange(5, bytes.len() as int), 8) == Some(chunks)
}

/// The encoding of a fragment has the shape of one.
pub proof fn lemma_fragment_shape(index: u8, chunks: Seq<Option<Seq<u8>>>)
    requires
        chunks.len() == 8,
        crate::portal::ssz::items_fit(chunks),
    ensures
        fragment_shape(seq![index] + le_bytes(5, 4) + sparse_encoding(chunks), index, chunks),
{
    let bytes = seq![index] + le_bytes(5, 4) + sparse_encoding(chunks);
    lemma_le_bytes_len(5, 4);
    lemma_decode_encoded(chunks);
    assert(bytes.subrange(1, 5) =~= le_bytes(5, 4));
    assert(bytes.subrange(5, bytes.len() as int) =~= sparse_encoding(chunks));
}

/// The items of a sparse vector of points are encodings of points, 32 bytes each.
pub proof fn lemma_point_chunks_are_points<C: Curve>(items: Seq<Option<C::Point>>)
    ensures
        chunks_are_points::<C>(point_chunks::<C>(items)),
        crate::portal::ssz::items_fit(point_chunks::<C>(items)),
{
    let chunks = point_chunks::<C>(items);
    assert forall|i: int| 0 <= i < chunks.len() implies (#[trigger] chunks[i] matches Some(
        chunk,
    ) ==> (exists|e: C::Elem| C::encoding(e) == chunk) && chunk.len() == 32) by {
        match items[i] {
            Some(p) => {
                C::lemma_encoding_len(C::elem(&p));
                assert(C::encoding(C::elem(&p)) == chunks[i]->0);
            },
            None => {},
        }
    }
}

/// The bytes from position `from` on.
pub fn slice_from(bytes: &[u8], from: usize) -> (r: &[u8])
    requires
        from <= bytes@.len(),
    ensures
        r@ == bytes@.subrange(from as int, bytes@.len() as int),
{
    vstd::slice::slice_subrange(bytes, from, bytes.len())
}

/// Chunk `k` of the encodings of points is the encoding of point `k`.
pub proof fn lemma_points_chunk<C: Curve>(points: Seq<C::Point>, count: int, k: int)
    requires
        0 <= k < count,
    ensures
        points_encoding::<C>(points, count).subrange(32 * k, 32 * k + 32) == C::encoding(
            C::elem(&points[k]),
        ),
    decreases count,
{
    lemma_points_encoding_len::<C>(points, count - 1);
    C::lemma_encoding_len(C::elem(&points[count - 1]));
    let all = points_encoding::<C>(points, count);
    let fewer = points_encoding::<C>(points, count - 1);
    if k == count - 1 {
        assert(all.subrange(32 * k, 32 * k + 32) =~= C::encoding(C::elem(&points[k])));
    } else {
        lemma_points_chunk::<C>(points, count - 1, k);
        assert(all.subrange(32 * k, 32 * k + 32) =~= fewer.subrange(32 * k, 32 * k + 32));
    }
}

/// The 32 bytes of `bytes` from position `at` on.
pub fn chunk_at(bytes: &[u8], at: usize) -> (r: [u8; 32])
    requires
        at + 32 <= bytes@.len(),
    ensures
        r@ == bytes@.subrange(at as int, at + 32),
{
    let length = bytes.len();
    let mut chunk = [0u8; 32];
    let mut k: usize = 0;
    while k < 32
        invariant
            k <= 32,
            length == bytes@.len(),
            at + 32 <= length,
            forall|m: int| 0 <= m < k ==> chunk[m] == bytes@[at + m],
        decreases 32 - k,
    {
        chunk[k] = bytes[at + k];
        k += 1;
    }
    assert(chunk@ =~= bytes@.subrange(at as int, at + 32));
    chunk
}

/// The `count` points that `bytes` encode one after the other, if they do.
pub fn decode_points<C: Curve>(bytes: &[u8], count: usize) -> (r: Option<Vec<C::Point>>)
    requires
        bytes@.len() == 32 * count,
    ensures
        r matches Some(points) ==> points@.len() == count && points_encoding::<C>(
            points@,
            count as int,
        ) == bytes@,
        r is None ==> exists|k: int|
            0 <= k < count && forall|e: C::Elem|
                C::encoding(e) != #[trigger] bytes@.subrange(32 * k, 32 * k + 32),
{
    let mut points: Vec<C::Point> = Vec::new();
    let length = bytes.len();
    let mut i: usize = 0;
    proof {
        assert(bytes@.subrange(0, 0) =~= Seq::<u8>::empty());
    }
    while i < count
        invariant
            i <= count,
            length == 32 * count,
            bytes@.len() == 32 * count,
            points@.len() == i,
            points_encoding::<C>(points@, i as int) == bytes@.subrange(0, 32 * i),
        decreases count - i,
    {
        let chunk = chunk_at(bytes, 32 * i);
        match C::point_from_bytes(&chunk) {
            Some(point) => {
                let ghost before = points@;
                points.push(point);
                proof {
                    lemma_points_same::<C>(points@, before, i as int);
                    assert(bytes@.subrange(0, 32 * i + 32) =~= bytes@.subrange(0, 32 * i)
                        + chunk@);
                }
            },
            None => {
                assert(forall|e: C::Elem|
                    C::encoding(e) != bytes@.subrange(32 * (i as int), 32 * (i as int) + 32));
                return None;
            },
        }
        i += 1;
    }
    assert(bytes@.subrange(0, 32 * count) =~= bytes@);
    Some(points)
}

/// The encodings of the first `k` points depend on these points alone.
pub proof fn lemma_points_same<C: Curve>(a: Seq<C::Point>, b: Seq<C::Point>, k: int)
    requires
        0 <= k <= a.len(),
        k <= b.len(),
        forall|i: int| 0 <= i < k ==> a[i] == b[i],
    ensures
        points_encoding::<C>(a, k) == points_encoding::<C>(b, k),
    decreases k,
{
    if k > 0 {
        lemma_points_same::<C>(a, b, k - 1);
    }
}

/// The scalar that 32 bytes spell, if they are the spelling of a scalar.
pub fn decode_scalar<C: Curve>(bytes: &[u8; 32]) -> (r: Option<C::Scalar>)
    ensures
        r matches Some(scalar) ==> le_bytes(C::scalar_value(&scalar), 32) == bytes@,
        r is None ==> forall|scalar: C::Scalar|
            #[trigger] le_bytes(C::scalar_value(&scalar), 32) != bytes@,
{
    let scalar = C::scalar_from_le_bytes(bytes);
    let spelling = C::scalar_to_le_bytes(&scalar);
    proof {
        lemma_le_bytes_of_le_value(spelling@);
        assert forall|other: C::Scalar| #[trigger]
            le_bytes(C::scalar_value(&other), 32) == bytes@ implies spelling@ == bytes@ by {
            let v = C::scalar_value(&other);
            C::lemma_scalar_below_order(&other);
            C::lemma_order_bounds();
            lemma_le_value_of_le_bytes(v, 32);
            crate::numbers::lemma_pow256_of_32();
            vstd::arithmetic::div_mod::lemma_small_mod(v, crate::numbers::pow256(32));
            vstd::arithmetic::div_mod::lemma_small_mod(v, C::order());
        }
    }
    if crate::numbers::same_bytes(&spelling, bytes) {
        Some(scalar)
    } else {
        None
    }
}

/// What the bytes that encode a proof look like.
pub open spec fn proof_shape<C: Curve>(bytes: Seq<u8>, proof: MultiPointProof<C>) -> bool {
    &&& bytes.len() == 576
    &&& bytes.subrange(0, 256) == points_encoding::<C>(proof.ipa_proof.cl@, 8)
    &&& bytes.subrange(256, 512) == points_encoding::<C>(proof.ipa_proof.cr@, 8)
    &&& bytes.subrange(512, 544) == le_bytes(
        C::scalar_value(&proof.ipa_proof.final_evaluation),
        32,
    )
    &&& bytes.subrange(544, 576) == C::encoding(C::elem(&proof.g_x))
}

/// The encoding of a proof has the shape of one.
pub proof fn lemma_proof_shape<C: Curve>(proof: MultiPointProof<C>)
    ensures
        proof_shape::<C>(proof_encoding::<C>(proof), proof),
{
    let bytes = proof_encoding::<C>(proof);
    lemma_points_encoding_len::<C>(proof.ipa_proof.cl@, 8);
    lemma_points_encoding_len::<C>(proof.ipa_proof.cr@, 8);
    lemma_le_bytes_len(C::scalar_value(&proof.ipa_proof.final_evaluation), 32);
    C::lemma_encoding_len(C::elem(&proof.g_x));
    assert(bytes.subrange(0, 256) =~= points_encoding::<C>(proof.ipa_proof.cl@, 8));
    assert(bytes.subrange(256, 512) =~= points_encoding::<C>(proof.ipa_proof.cr@, 8));
    assert(bytes.subrange(512, 544) =~= le_bytes(
        C::scalar_value(&proof.ipa_proof.final_evaluation),
        32,
    ));
    assert(bytes.subrange(544, 576) =~= C::encoding(C::elem(&proof.g_x)));
}

/// The eight points as an array.
fn eight_points<C: Curve>(points: &Vec<C::Point>) -> (r: [C::Point; 8])
    requires
        points@.len() == 8,
    ensures
        r@ == points@,
{
    let mut array: [C::Point; 8] = [points[0];8];
    let mut i: usize = 1;
    while i < 8
        invariant
            1 <= i <= 8,
            points@.len() == 8,
            forall|k: int| 0 <= k < i ==> array[k] == points@[k],
        decreases 8 - i,
    {
        array[i] = points[i];
        i += 1;
    }
    assert(array@ =~= points@);
    array
}

/// The multi-point proof that `bytes` encode, if they encode one.
pub fn decode_proof<C: Curve>(bytes: &[u8]) -> (r: Option<MultiPointProof<C>>)
    ensures
        r matches Some(proof) ==> proof_encoding::<C>(proof) == bytes@,
        r is None ==> forall|proof: MultiPointProof<C>| #[trigger]
            proof_encoding::<C>(proof) != bytes@,
{
    proof {
        assert forall|proof: MultiPointProof<C>| #[trigger]
            proof_encoding::<C>(proof) == bytes@ implies proof_shape::<C>(bytes@, proof) by {
            lemma_proof_shape::<C>(proof);
        }
    }
    if bytes.len() != 576 {
        return None;
    }
    let cl_bytes = vstd::slice::slice_subrange(bytes, 0, 256);
    let cr_bytes = vstd::slice::slice_subrange(bytes, 256, 512);
    let cl = match decode_points::<C>(cl_bytes, 8) {
        Some(points) => points,
        None => {
            proof {
                let k = choose|k: int|
                    0 <= k < 8 && forall|e: C::Elem|
                        C::encoding(e) != #[trigger] cl_bytes@.subrange(32 * k, 32 * k + 32);
                assert forall|proof: MultiPointProof<C>| #[trigger]
                    proof_encoding::<C>(proof) != bytes@ by {
                    if proof_encoding::<C>(proof) == bytes@ {
                        lemma_points_chunk::<C>(proof.ipa_proof.cl@, 8, k);
                    }
                }
            }
            return None;
        },
    };
    let cr = match decode_points::<C>(cr_bytes, 8) {
        Some(points) => points,
        None => {
            proof {
                let k = choose|k: int|
                    0 <= k < 8 && forall|e: C::Elem|
                        C::encoding(e) != #[trigger] cr_bytes@.subrange(32 * k, 32 * k + 32);
                assert forall|proof: MultiPointProof<C>| #[trigger]
                    proof_encoding::<C>(proof) != bytes@ by {
                    if proof_encoding::<C>(proof) == bytes@ {
                        lemma_points_chunk::<C>(proof.ipa_proof.cr@, 8, k);
                    }
                }
            }
            return None;
        },
    };
    let final_evaluation = match decode_scalar::<C>(&chunk_at(bytes, 512)) {
        Some(scalar) => scalar,
        None => {
            return None;
        },
    };
    let g_x = match C::point_from_bytes(&chunk_at(bytes, 544)) {
        Some(point) => point,
        None => {
            return None;
        },
    };
    let proof = MultiPointProof {
        ipa_proof: IpaProof { cl: eight_points::<C>(&cl), cr: eight_points::<C>(&cr), final_evaluation },
        g_x,
    };
    proof {
        assert(bytes@ =~= bytes@.subrange(0, 256) + bytes@.subrange(256, 512) + bytes@.subrange(
            512,
            544,
        ) + bytes@.subrange(544, 576));
    }
    Some(proof)
}

/// What the bytes that encode a bundle of a branch look like.
pub open spec fn branch_bundle_shape<C: Curve>(bytes: Seq<u8>, node: BranchBundleNode<C>) -> bool {
    &&& bytes.len() >= 580
    &&& bytes.subrange(0, 4) == le_bytes(580, 4)
    &&& bytes.subrange(4, 580) == proof_encoding::<C>(node.spec_bundle_proof())
    &&& sparse_decoding(bytes.subrange(580, bytes.len() as int), 32) == Some(
        point_chunks::<C>(node.spec_fragments().items()),
    )
}

/// The encoding of a bundle of a branch has the shape of one.
pub proof fn lemma_branch_bundle_shape<C: Curve>(node: BranchBundleNode<C>)
    ensures
        branch_bundle_shape::<C>(branch_bundle_encoding::<C>(node), node),
{
    let bytes = branch_bundle_encoding::<C>(node);
    let chunks = point_chunks::<C>(node.spec_fragments().items());
    node.spec_fragments().lemma_len();
    lemma_le_bytes_len(580, 4);
    lemma_proof_encoding_len::<C>(node.spec_bundle_proof());
    lemma_point_chunks_are_points::<C>(node.spec_fragments().items());
    lemma_decode_encoded(chunks);
    assert(bytes.subrange(0, 4) =~= le_bytes(580, 4));
    assert(bytes.subrange(4, 580) =~= proof_encoding::<C>(node.spec_bundle_proof()));
    assert(bytes.subrange(580, bytes.len() as int) =~= sparse_encoding(chunks));
}

/// The bundle of a branch that `bytes` encode, if they encode one.
pub fn decode_branch_bundle<C: Curve>(bytes: &[u8]) -> (r: Option<BranchBundleNode<C>>)
    ensures
        r matches Some(node) ==> branch_bundle_encoding::<C>(node) == bytes@,
        r is None ==> forall|node: BranchBundleNode<C>| #[trigger]
            branch_bundle_encoding::<C>(node) != bytes@,
{
    proof {
        assert forall|node: BranchBundleNode<C>| #[trigger]
            branch_bundle_encoding::<C>(node) == bytes@ implies branch_bundle_shape::<C>(
            bytes@,
            node,
        ) && chunks_are_points::<C>(point_chunks::<C>(node.spec_fragments().items())) by {
            lemma_branch_bundle_shape::<C>(node);
            lemma_point_chunks_are_points::<C>(node.spec_fragments().items());
        }
    }
    if bytes.len() < 580 || !holds_offset(bytes, 0, 580) {
        return None;
    }
    let bundle_proof = match decode_proof::<C>(vstd::slice::slice_subrange(bytes, 4, 580)) {
        Some(proof) => proof,
        None => {
            return None;
        },
    };
    let rest = slice_from(bytes, 580);
    match decode_sparse_points::<C, 32>(rest) {
        Some(fragments) => {
            let node = BranchBundleNode::new(fragments, bundle_proof);
            proof {
                crate::portal::ssz::lemma_encode_decoded(rest@, 32);
                assert(bytes@ =~= bytes@.subrange(0, 4) + bytes@.subrange(4, 580) + rest@);
            }
            Some(node)
        },
        None => None,
    }
}

/// What the bytes that encode a bundle of a leaf look like.
pub open spec fn leaf_bundle_shape<C: Curve>(bytes: Seq<u8>, node: LeafBundleNode<C>) -> bool {
    &&& bytes.len() >= 619
    &&& bytes.subrange(0, 8) == le_bytes(node.spec_marker() as nat, 8)
    &&& bytes.subrange(8, 39) == node.spec_stem()@
    &&& bytes.subrange(39, 43) == le_bytes(619, 4)
    &&& bytes.subrange(43, 619) == proof_encoding::<C>(node.spec_bundle_proof())
    &&& sparse_decoding(bytes.subrange(619, bytes.len() as int), 32) == Some(
        point_chunks::<C>(node.spec_fragments().items()),
    )
}

/// The encoding of a bundle of a leaf has the shape of one.
pub proof fn lemma_leaf_bundle_shape<C: Curve>(node: LeafBundleNode<C>)
    ensures
        leaf_bundle_shape::<C>(leaf_bundle_encoding::<C>(node), node),
{
    let bytes = leaf_bundle_encoding::<C>(node);
    let chunks = point_chunks::<C>(node.spec_fragments().items());
    node.spec_fragments().lemma_len();
    node.spec_stem().lemma_len();
    lemma_le_bytes_len(node.spec_marker() as nat, 8);
    lemma_le_bytes_len(619, 4);
    lemma_proof_encoding_len::<C>(node.spec_bundle_proof());
    lemma_point_chunks_are_points::<C>(node.spec_fragments().items());
    lemma_decode_encoded(chunks);
    assert(bytes.subrange(0, 8) =~= le_bytes(node.spec_marker() as nat, 8));
    assert(bytes.subrange(8, 39) =~= node.spec_stem()@);
    assert(bytes.subrange(39, 43) =~= le_bytes(619, 4));
    assert(bytes.subrange(43, 619) =~= proof_encoding::<C>(node.spec_bundle_proof()));
    assert(bytes.subrange(619, bytes.len() as int) =~= sparse_encoding(chunks));
}

/// The number that eight bytes spell, least significant first.
pub fn u64_from_le_bytes(bytes: &[u8], at: usize) -> (r: u64)
    requires
        at + 8 <= bytes@.len(),
    ensures
        r == le_value(bytes@.subrange(at as int, at + 8)),
        le_bytes(r as nat, 8) == bytes@.subrange(at as int, at + 8),
{
    let length = bytes.len();
    let ghost part = bytes@.subrange(at as int, at + 8);
    let mut value: u64 = 0;
    let mut i: usize = 8;
    proof {
        assert(part.subrange(8, 8) =~= Seq::<u8>::empty());
    }
    while i > 0
        invariant
            i <= 8,
            length == bytes@.len(),
            at + 8 <= length,
            part == bytes@.subrange(at as int, at + 8),
            value == le_value(part.subrange(i as int, 8)),
            value < crate::numbers::pow256((8 - i) as nat),
        decreases i,
    {
        i -= 1;
        proof {
            reveal_with_fuel(crate::numbers::pow256, 9);
            assert(part.subrange(i as int, 8).drop_first() =~= part.subrange(i + 1, 8));
            assert(crate::numbers::pow256((8 - i) as nat) == 256 * crate::numbers::pow256(
                (8 - i - 1) as nat,
            ));
        }
        value = value * 256 + bytes[at + i] as u64;
    }
    proof {
        assert(part.subrange(0, 8) =~= part);
        lemma_le_bytes_of_le_value(part);
    }
    value
}

/// The bundle of a leaf that `bytes` encode, if they encode one.
pub fn decode_leaf_bundle<C: Curve>(bytes: &[u8]) -> (r: Option<LeafBundleNode<C>>)
    ensures
        r matches Some(node) ==> leaf_bundle_encoding::<C>(node) == bytes@,
        r is None ==> forall|node: LeafBundleNode<C>| #[trigger]
            leaf_bundle_encoding::<C>(node) != bytes@,
{
    proof {
        assert forall|node: LeafBundleNode<C>| #[trigger]
            leaf_bundle_encoding::<C>(node) == bytes@ implies leaf_bundle_shape::<C>(bytes@, node)
            && chunks_are_points::<C>(point_chunks::<C>(node.spec_fragments().items())) by {
            lemma_leaf_bundle_shape::<C>(node);
            lemma_point_chunks_are_points::<C>(node.spec_fragments().items());
        }
    }
    if bytes.len() < 619 || !holds_offset(bytes, 39, 619) {
        return None;
    }
    let marker = u64_from_le_bytes(bytes, 0);
    let mut stem = [0u8; 31];
    let mut k: usize = 0;
    while k < 31
        invariant
            k <= 31,
            bytes@.len() >= 619,
            forall|m: int| 0 <= m < k ==> stem[m] == bytes@[8 + m],
        decreases 31 - k,
    {
        stem[k] = bytes[8 + k];
        k += 1;
    }
    assert(stem@ =~= bytes@.subrange(8, 39));
    let bundle_proof = match decode_proof::<C>(vstd::slice::slice_subrange(bytes, 43, 619)) {
        Some(proof) => proof,
        None => {
            return None;
        },
    };
    let rest = slice_from(bytes, 619);
    match decode_sparse_points::<C, 32>(rest) {
        Some(fragments) => {
            let node = LeafBundleNode::new(marker, Stem::new(stem), fragments, bundle_proof);
            proof {
                crate::portal::ssz::lemma_encode_decoded(rest@, 32);
                assert(bytes@ =~= bytes@.subrange(0, 8) + bytes@.subrange(8, 39)
                    + bytes@.subrange(39, 43) + bytes@.subrange(43, 619) + rest@);
            }
            Some(node)
        },
        None => None,
    }
}

/// A container of a block hash between two fields of variable length
/// followed by a third: three offsets around the hash, then the fields.
pub open spec fn container_of_three(hash: Seq<u8>, a: Seq<u8>, b: Seq<u8>, c: Seq<u8>) -> Seq<u8> {
    le_bytes(44, 4) + hash + le_bytes(44 + a.len(), 4) + le_bytes(44 + a.len() + b.len(), 4) + a
        + b + c
}

/// A container of a block hash between two fields of variable length: an
/// offset, the hash, an offset, then the fields.
pub open spec fn container_of_two(hash: Seq<u8>, a: Seq<u8>, c: Seq<u8>) -> Seq<u8> {
    le_bytes(40, 4) + hash + le_bytes(40 + a.len(), 4) + a + c
}

/// The encoding of a bundle of a branch with its proof.
pub open spec fn branch_bundle_with_proof_encoding<C: Curve>(
    value: BranchBundleNodeWithProof<C>,
) -> Seq<u8> {
    container_of_three(
        value.block_hash@,
        branch_bundle_encoding::<C>(value.node),
        value.path@,
        trie_proof_encoding::<C>(value.trie_proof),
    )
}

/// The encoding of a fragment of a branch with its proof.
pub open spec fn branch_fragment_with_proof_encoding<C: Curve>(
    value: BranchFragmentNodeWithProof<C>,
) -> Seq<u8> {
    container_of_three(
        value.block_hash@,
        branch_fragment_encoding::<C>(value.node),
        value.path@,
        trie_proof_encoding::<C>(value.trie_proof),
    )
}

/// The encoding of a bundle of a leaf with its proof.
pub open spec fn leaf_bundle_with_proof_encoding<C: Curve>(
    value: LeafBundleNodeWithProof<C>,
) -> Seq<u8> {
    container_of_two(
        value.block_hash@,
        leaf_bundle_encoding::<C>(value.node),
        trie_proof_encoding::<C>(value.trie_proof),
    )
}

/// The encoding of a fragment of a leaf with its proof.
pub open spec fn leaf_fragment_with_proof_encoding<C: Curve>(
    value: LeafFragmentNodeWithProof<C>,
) -> Seq<u8> {
    container_of_two(
        value.block_hash@,
        leaf_fragment_encoding(value.node),
        trie_proof_encoding::<C>(value.trie_proof),
    )
}

/// The container of `hash` and three fields, or `None` if an offset does
/// not fit in four bytes.
pub fn encode_container_of_three(hash: &[u8; 32], a: &[u8], b: &[u8], c: &[u8]) -> (r: Option<
    Vec<u8>,
>)
    ensures
        r is Some <==> 44 + a@.len() + b@.len() <= u32::MAX,
        r matches Some(bytes) ==> bytes@ == container_of_three(hash@, a@, b@, c@),
{
    if a.len() > 0xFFFF_FFFF - 44 || b.len() > 0xFFFF_FFFF - 44 - a.len() {
        return None;
    }
    let mut bytes: Vec<u8> = Vec::new();
    append_bytes(&mut bytes, &encode_offset(44));
    append_bytes(&mut bytes, hash);
    append_bytes(&mut bytes, &encode_offset((44 + a.len()) as u32));
    append_bytes(&mut bytes, &encode_offset((44 + a.len() + b.len()) as u32));
    append_bytes(&mut bytes, a);
    append_bytes(&mut bytes, b);
    append_bytes(&mut bytes, c);
    assert(bytes@ =~= container_of_three(hash@, a@, b@, c@));
    Some(bytes)
}

/// The container of `hash` and two fields, or `None` if an offset does not
/// fit in four bytes.
pub fn encode_container_of_two(hash: &[u8; 32], a: &[u8], c: &[u8]) -> (r: Option<Vec<u8>>)
    ensures
        r is Some <==> 40 + a@.len() <= u32::MAX,
        r matches Some(bytes) ==> bytes@ == container_of_two(hash@, a@, c@),
{
    if a.len() > 0xFFFF_FFFF - 40 {
        return None;
    }
    let mut bytes: Vec<u8> = Vec::new();
    append_bytes(&mut bytes, &encode_offset(40));
    append_bytes(&mut bytes, hash);
    append_bytes(&mut bytes, &encode_offset((40 + a.len()) as u32));
    append_bytes(&mut bytes, a);
    append_bytes(&mut bytes, c);
    assert(bytes@ =~= container_of_two(hash@, a@, c@));
    Some(bytes)
}

/// The encoding of a node with its proof, or `None` if the node or its
/// path is too long for an offset of four bytes.
pub fn encode_node_with_proof<C: Curve>(value: &PortalVerkleNodeWithProof<C>) -> (r: Option<
    Vec<u8>,
>)
    ensures
        r matches Some(bytes) ==> bytes@ == node_with_proof_encoding::<C>(*value),
        r is None ==> node_with_proof_encoding::<C>(*value).len() > u32::MAX,
{
    match value {
        PortalVerkleNodeWithProof::BranchBundle(value) => {
            let node = encode_branch_bundle::<C>(&value.node);
            let proof = encode_trie_proof::<C>(&value.trie_proof);
            proof {
                lemma_le_bytes_len_4();
            }
            encode_container_of_three(
                &value.block_hash,
                node.as_slice(),
                value.path.as_slice(),
                proof.as_slice(),
            )
        },
        PortalVerkleNodeWithProof::BranchFragment(value) => {
            let node = encode_branch_fragment::<C>(&value.node);
            let proof = encode_trie_proof::<C>(&value.trie_proof);
            proof {
                lemma_le_bytes_len_4();
            }
            encode_container_of_three(
                &value.block_hash,
                node.as_slice(),
                value.path.as_slice(),
                proof.as_slice(),
            )
        },
        PortalVerkleNodeWithProof::LeafBundle(value) => {
            let node = encode_leaf_bundle::<C>(&value.node);
            let proof = encode_trie_proof::<C>(&value.trie_proof);
            proof {
                lemma_le_bytes_len_4();
            }
            encode_container_of_two(&value.block_hash, node.as_slice(), proof.as_slice())
        },
        PortalVerkleNodeWithProof::LeafFragment(value) => {
            let node = encode_leaf_fragment(&value.node);
            let proof = encode_trie_proof::<C>(&value.trie_proof);
            proof {
                lemma_le_bytes_len_4();
            }
            encode_container_of_two(&value.block_hash, node.as_slice(), proof.as_slice())
        },
    }
}

proof fn lemma_le_bytes_len_4()
    ensures
        forall|x: nat| (#[trigger] le_bytes(x, 4)).len() == 4,
{
    assert forall|x: nat| (#[trigger] le_bytes(x, 4)).len() == 4 by {
        lemma_le_bytes_len(x, 4);
    }
}

/// The encoding of a node with its proof.
pub open spec fn node_with_proof_encoding<C: Curve>(value: PortalVerkleNodeWithProof<C>) -> Seq<u8> {
    match value {
        PortalVerkleNodeWithProof::BranchBundle(value) => branch_bundle_with_proof_encoding::<C>(
            value,
        ),
        PortalVerkleNodeWithProof::BranchFragment(value) => branch_fragment_with_proof_encoding::<
            C,
        >(value),
        PortalVerkleNodeWithProof::LeafBundle(value) => leaf_bundle_with_proof_encoding::<C>(
            value,
        ),
        PortalVerkleNodeWithProof::LeafFragment(value) => leaf_fragment_with_proof_encoding::<C>(
            value,
        ),
    }
}

/// The encoding of a node.
pub open spec fn node_encoding<C: Curve>(node: PortalVerkleNode<C>) -> Seq<u8> {
    match node {
        PortalVerkleNode::BranchBundle(node) => branch_bundle_encoding::<C>(node),
        PortalVerkleNode::BranchFragment(node) => branch_fragment_encoding::<C>(node),
        PortalVerkleNode::LeafBundle(node) => leaf_bundle_encoding::<C>(node),
        PortalVerkleNode::LeafFragment(node) => leaf_fragment_encoding(node),
    }
}

/// The encoding of a node.
pub fn encode_node<C: Curve>(node: &PortalVerkleNode<C>) -> (r: Vec<u8>)
    ensures
        r@ == node_encoding::<C>(*node),
{
    match node {
        PortalVerkleNode::BranchBundle(node) => encode_branch_bundle::<C>(node),
        PortalVerkleNode::BranchFragment(node) => encode_branch_fragment::<C>(node),
        PortalVerkleNode::LeafBundle(node) => encode_leaf_bundle::<C>(node),
        PortalVerkleNode::LeafFragment(node) => encode_leaf_fragment(node),
    }
}

/// The node that `bytes` encode where they were stored under `key`: under
/// the key of a bundle, the bundle of a branch or, if the bytes encode
/// none, the bundle of a leaf; under the key of a fragment, a fragment of
/// that kind.
pub fn decode_node<C: Curve>(key: &VerkleContentKey<C>, bytes: &[u8]) -> (r: Option<
    PortalVerkleNode<C>,
>)
    ensures
        r matches Some(node) ==> node_encoding::<C>(node) == bytes@ && node_fits_key::<C>(
            *key,
            node,
        ),
        r is None ==> forall|node: PortalVerkleNode<C>|
            node_fits_key::<C>(*key, node) ==> #[trigger] node_encoding::<C>(node) != bytes@,
{
    match key {
        VerkleContentKey::Bundle(_) => {
            match decode_branch_bundle::<C>(bytes) {
                Some(node) => Some(PortalVerkleNode::BranchBundle(node)),
                None => {
                    match decode_leaf_bundle::<C>(bytes) {
                        Some(node) => Some(PortalVerkleNode::LeafBundle(node)),
                        None => None,
                    }
                },
            }
        },
        VerkleContentKey::BranchFragment(_) => {
            match decode_branch_fragment::<C>(bytes) {
                Some(node) => Some(PortalVerkleNode::BranchFragment(node)),
                None => None,
            }
        },
        VerkleContentKey::LeafFragment(_) => {
            match decode_leaf_fragment(bytes) {
                Some(node) => Some(PortalVerkleNode::LeafFragment(node)),
                None => None,
            }
        },
    }
}

/// Whether a node is of a kind that is stored under `key`.
pub open spec fn node_fits_key<C: Curve>(key: VerkleContentKey<C>, node: PortalVerkleNode<C>) -> bool {
    match key {
        VerkleContentKey::Bundle(_) => node is BranchBundle || node is LeafBundle,
        VerkleContentKey::BranchFragment(_) => node is BranchFragment,
        VerkleContentKey::LeafFragment(_) => node is LeafFragment,
    }
}

} // verus!
