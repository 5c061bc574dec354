use portal_verkle::curve::Curve;
use portal_verkle::path::TriePath;
use portal_verkle::portal::content::{
    LeafFragmentKey, PortalVerkleNode, PortalVerkleNodeWithProof, VerkleContentKey,
};
use portal_verkle::portal::node_wire::{
    decode_branch_bundle, decode_branch_fragment, decode_leaf_bundle, decode_leaf_fragment,
    decode_node, decode_proof, encode_branch_bundle, encode_branch_fragment, encode_leaf_bundle,
    encode_leaf_fragment, encode_node_with_proof, encode_offset, encode_proof, encode_trie_proof,
};
use portal_verkle::portal::nodes::{
    BranchBundleNodeWithProof, BranchFragmentNode, LeafFragmentNode, LeafFragmentNodeWithProof,
};
use portal_verkle::portal::proofs::{MultiPointProof, TrieProof};
use portal_verkle::portal::sparse_vector::SparseVector;
use portal_verkle::portal::wire::{
    bit_at, decode_content_key, decode_sparse, encode_content_key, encode_sparse,
};
use portal_verkle::primitives::{Stem, TrieKey, TrieValue};
use portal_verkle::trie::VerkleTrie;
use portal_verkle::word_curve::{WordCurve, WordPoint, WordScalar};

fn point(byte: u8) -> WordPoint {
    WordPoint { bytes: [byte; 32] }
}

fn populated() -> VerkleTrie<WordCurve> {
    let mut trie = VerkleTrie::<WordCurve>::new();
    for (stem_byte, suffix) in [(0u8, 0u8), (3, 0), (8, 9), (200, 7)] {
        let mut key = [0u8; 32];
        key[0] = stem_byte;
        key[31] = suffix;
        trie.insert(&TrieKey::new(key), TrieValue::new([stem_byte.wrapping_add(1); 32]));
    }
    trie
}

#[test]
fn sparse_vector_is_a_bitmap_and_the_set_items() {
    let mut items: Vec<Option<[u8; 32]>> = vec![None; 32];
    items[0] = Some([0xaa; 32]);
    items[9] = Some([0xbb; 32]);
    items[31] = Some([0xcc; 32]);
    let bytes = encode_sparse(&items);
    assert_eq!(bytes.len(), 4 + 3 * 32);
    assert_eq!(&bytes[..4], &[0b0000_0001, 0b0000_0010, 0, 0b1000_0000]);
    assert_eq!(&bytes[4..36], &[0xaa; 32]);
    assert_eq!(&bytes[36..68], &[0xbb; 32]);
    assert_eq!(&bytes[68..], &[0xcc; 32]);
    assert_eq!(decode_sparse(&bytes, 32), Some(items));
}

#[test]
fn empty_sparse_vector_is_its_bitmap() {
    let items: Vec<Option<[u8; 32]>> = vec![None; 8];
    assert_eq!(encode_sparse(&items), vec![0]);
    assert_eq!(decode_sparse(&[0], 8), Some(items));
}

#[test]
fn sparse_vector_must_hold_as_many_items_as_its_bitmap_sets() {
    let mut bytes = vec![0b0000_0101u8];
    bytes.extend_from_slice(&[1; 32]);
    // one item is missing
    assert_eq!(decode_sparse(&bytes, 8), None);
    bytes.extend_from_slice(&[2; 32]);
    let decoded = decode_sparse(&bytes, 8).unwrap();
    assert_eq!(decoded[0], Some([1; 32]));
    assert_eq!(decoded[1], None);
    assert_eq!(decoded[2], Some([2; 32]));
    // one byte too many
    bytes.push(0);
    assert_eq!(decode_sparse(&bytes, 8), None);
    // no bitmap at all
    assert_eq!(decode_sparse(&[], 8), None);
}

#[test]
fn bits_count_from_the_least_significant() {
    assert!(bit_at(0b0000_0001, 0));
    assert!(!bit_at(0b0000_0001, 1));
    assert!(bit_at(0b1000_0000, 7));
    assert!(bit_at(0b0010_0000, 5));
    assert!(!bit_at(0b1101_1111, 5));
}

#[test]
fn offsets_are_four_bytes_little_endian() {
    assert_eq!(encode_offset(5), [5, 0, 0, 0]);
    assert_eq!(encode_offset(580), [0x44, 0x02, 0, 0]);
    assert_eq!(encode_offset(0x0102_0304), [4, 3, 2, 1]);
}

#[test]
fn content_keys() {
    let bundle = VerkleContentKey::<WordCurve>::Bundle(point(7));
    let bytes = encode_content_key(&bundle);
    assert_eq!(bytes.len(), 33);
    assert_eq!(bytes[0], 0);
    assert_eq!(&bytes[1..], &[7; 32]);
    assert!(matches!(decode_content_key::<WordCurve>(&bytes), Some(VerkleContentKey::Bundle(p)) if p == point(7)));

    let fragment = VerkleContentKey::<WordCurve>::BranchFragment(point(8));
    let bytes = encode_content_key(&fragment);
    assert_eq!(bytes[0], 1);
    assert!(matches!(decode_content_key::<WordCurve>(&bytes), Some(VerkleContentKey::BranchFragment(p)) if p == point(8)));

    let leaf = VerkleContentKey::<WordCurve>::LeafFragment(LeafFragmentKey {
        stem: Stem::new([5; 31]),
        commitment: point(9),
    });
    let bytes = encode_content_key(&leaf);
    assert_eq!(bytes.len(), 64);
    assert_eq!(bytes[0], 2);
    assert_eq!(&bytes[1..32], &[5; 31]);
    assert_eq!(&bytes[32..], &[9; 32]);
    match decode_content_key::<WordCurve>(&bytes) {
        Some(VerkleContentKey::LeafFragment(key)) => {
            assert_eq!(key.stem, Stem::new([5; 31]));
            assert_eq!(key.commitment, point(9));
        }
        _ => panic!("no key of a leaf fragment"),
    }

    assert!(decode_content_key::<WordCurve>(&[]).is_none());
    assert!(decode_content_key::<WordCurve>(&[3; 33]).is_none());
    assert!(decode_content_key::<WordCurve>(&[0; 34]).is_none());
    assert!(decode_content_key::<WordCurve>(&[2; 33]).is_none());
}

#[test]
fn branch_fragment_round_trip() {
    let trie = populated();
    let (_, fragment) = trie.root().extract_fragment_node(0);
    let bytes = encode_branch_fragment(&fragment);
    // index, offset, bitmap with children 0 and 3, two commitments
    assert_eq!(bytes.len(), 1 + 4 + 1 + 64);
    assert_eq!(&bytes[..6], &[0, 5, 0, 0, 0, 0b0000_1001]);
    let decoded = decode_branch_fragment::<WordCurve>(&bytes).unwrap();
    assert_eq!(decoded.fragment_index(), 0);
    assert_eq!(decoded.children(), fragment.children());
    assert!(decode_branch_fragment::<WordCurve>(&bytes[..bytes.len() - 1]).is_none());
    let mut wrong_offset = bytes.clone();
    wrong_offset[1] = 6;
    assert!(decode_branch_fragment::<WordCurve>(&wrong_offset).is_none());
}

#[test]
fn leaf_fragment_round_trip() {
    let mut children = [None; 8];
    children[1] = Some(TrieValue::new([4; 32]));
    let fragment = LeafFragmentNode::new(17, SparseVector::new(children));
    let bytes = encode_leaf_fragment(&fragment);
    let mut expected = vec![17, 5, 0, 0, 0, 0b0000_0010];
    expected.extend_from_slice(&[4; 32]);
    assert_eq!(bytes, expected);
    assert_eq!(decode_leaf_fragment(&bytes), Some(fragment));
    assert_eq!(decode_leaf_fragment(&bytes[..5]), None);
}

#[test]
fn branch_bundle_round_trip() {
    let trie = populated();
    let bundle = trie.root().extract_bundle_node();
    let bytes = encode_branch_bundle(&bundle);
    // offset, proof of zeros, bitmap, three fragment commitments
    assert_eq!(bytes.len(), 4 + 576 + 4 + 3 * 32);
    assert_eq!(&bytes[..4], &[0x44, 0x02, 0, 0]);
    assert!(bytes[4..580].iter().all(|b| *b == 0));
    assert_eq!(&bytes[580..584], &[0b0000_0011, 0, 0, 0b0000_0010]);
    let decoded = decode_branch_bundle::<WordCurve>(&bytes).unwrap();
    assert_eq!(decoded.fragments(), bundle.fragments());
    assert_eq!(decoded.commitment(), trie.root_commitment());
    assert!(decode_branch_bundle::<WordCurve>(&bytes[..600]).is_none());
}

#[test]
fn leaf_bundle_round_trip() {
    let trie = populated();
    let leaf = match trie.root().get_child(8) {
        portal_verkle::nodes::Node::Leaf(leaf) => leaf,
        _ => panic!("no leaf"),
    };
    let bundle = leaf.extract_bundle_node();
    let bytes = encode_leaf_bundle(&bundle);
    assert_eq!(&bytes[..8], &[1, 0, 0, 0, 0, 0, 0, 0]);
    assert_eq!(&bytes[8..39], leaf.stem().as_bytes());
    assert_eq!(&bytes[39..43], &[0x6b, 0x02, 0, 0]);
    // suffix 9 is in fragment 1
    assert_eq!(&bytes[619..623], &[0b0000_0010, 0, 0, 0]);
    assert_eq!(bytes.len(), 619 + 4 + 32);
    let decoded = decode_leaf_bundle::<WordCurve>(&bytes).unwrap();
    assert_eq!(decoded.marker(), 1);
    assert_eq!(decoded.stem(), leaf.stem());
    assert_eq!(decoded.fragments(), bundle.fragments());
    assert_eq!(decoded.commitment(), leaf.commitment());
}

#[test]
fn a_bundle_key_takes_either_bundle() {
    let trie = populated();
    let key = VerkleContentKey::<WordCurve>::Bundle(trie.root_commitment());
    let branch = encode_branch_bundle(&trie.root().extract_bundle_node());
    assert!(matches!(decode_node(&key, &branch), Some(PortalVerkleNode::BranchBundle(_))));
    let leaf = match trie.root().get_child(0) {
        portal_verkle::nodes::Node::Leaf(leaf) => leaf,
        _ => panic!("no leaf"),
    };
    let leaf_bytes = encode_leaf_bundle(&leaf.extract_bundle_node());
    assert!(matches!(decode_node(&key, &leaf_bytes), Some(PortalVerkleNode::LeafBundle(_))));
    let fragment_key = VerkleContentKey::<WordCurve>::BranchFragment(point(1));
    assert!(decode_node(&fragment_key, &branch).is_none());
}

#[test]
fn proof_round_trip() {
    let mut proof = MultiPointProof::<WordCurve>::zeroed();
    proof.ipa_proof.cl[2] = point(3);
    proof.ipa_proof.cr[7] = point(4);
    proof.ipa_proof.final_evaluation = WordScalar { bytes: [5; 32] };
    proof.g_x = point(6);
    let bytes = encode_proof(&proof);
    assert_eq!(bytes.len(), 576);
    assert_eq!(&bytes[64..96], &[3; 32]);
    assert_eq!(&bytes[256 + 224..512], &[4; 32]);
    assert_eq!(&bytes[512..544], &[5; 32]);
    assert_eq!(&bytes[544..], &[6; 32]);
    let decoded = decode_proof::<WordCurve>(&bytes).unwrap();
    assert_eq!(decoded.ipa_proof.cl, proof.ipa_proof.cl);
    assert_eq!(decoded.ipa_proof.cr, proof.ipa_proof.cr);
    assert_eq!(decoded.ipa_proof.final_evaluation, proof.ipa_proof.final_evaluation);
    assert_eq!(decoded.g_x, proof.g_x);
    assert!(decode_proof::<WordCurve>(&bytes[..575]).is_none());
}

#[test]
fn trie_proof_lists_the_commitments_behind_the_proof() {
    let mut proof = TrieProof::<WordCurve>::zeroed();
    proof.commitments_by_path.push(point(1));
    proof.commitments_by_path.push(point(2));
    let bytes = encode_trie_proof(&proof);
    assert_eq!(bytes.len(), 4 + 576 + 64);
    assert_eq!(&bytes[..4], &[0x44, 0x02, 0, 0]);
    assert_eq!(&bytes[580..612], &[1; 32]);
    assert_eq!(&bytes[612..], &[2; 32]);
}

#[test]
fn nodes_with_proofs() {
    let trie = populated();
    let node = trie.root().extract_bundle_node();
    let node_bytes = encode_branch_bundle(&node);
    let with_proof = PortalVerkleNodeWithProof::BranchBundle(BranchBundleNodeWithProof {
        node,
        block_hash: [0xee; 32],
        path: TriePath::new(vec![1, 2]),
        trie_proof: TrieProof::zeroed(),
    });
    let bytes = encode_node_with_proof(&with_proof).unwrap();
    let node_end = 44 + node_bytes.len();
    assert_eq!(&bytes[..4], &[44, 0, 0, 0]);
    assert_eq!(&bytes[4..36], &[0xee; 32]);
    assert_eq!(&bytes[36..40], &(node_end as u32).to_le_bytes());
    assert_eq!(&bytes[40..44], &((node_end + 2) as u32).to_le_bytes());
    assert_eq!(&bytes[44..node_end], &node_bytes[..]);
    assert_eq!(&bytes[node_end..node_end + 2], &[1, 2]);
    assert_eq!(bytes.len(), node_end + 2 + 580);

    let fragment = LeafFragmentNode::new(3, SparseVector::new([None; 8]));
    let leaf = PortalVerkleNodeWithProof::<WordCurve>::LeafFragment(LeafFragmentNodeWithProof {
        node: fragment,
        block_hash: [0x11; 32],
        trie_proof: TrieProof::zeroed(),
    });
    let bytes = encode_node_with_proof(&leaf).unwrap();
    assert_eq!(&bytes[..4], &[40, 0, 0, 0]);
    assert_eq!(&bytes[36..40], &[46, 0, 0, 0]);
    assert_eq!(&bytes[40..46], &[3, 5, 0, 0, 0, 0]);
    assert_eq!(bytes.len(), 46 + 580);
}

#[test]
fn fragment_index_is_kept_as_it_is() {
    let fragment = BranchFragmentNode::<WordCurve>::new(200, SparseVector::new([None; 8]));
    let bytes = encode_branch_fragment(&fragment);
    assert_eq!(bytes, vec![200, 5, 0, 0, 0, 0]);
    assert_eq!(decode_branch_fragment::<WordCurve>(&bytes).unwrap().fragment_index(), 200);
}

#[test]
fn points_go_on_the_wire_as_their_bytes() {
    let p = point(9);
    assert_eq!(WordCurve::point_to_bytes(&p), [9; 32]);
    assert_eq!(WordCurve::point_from_bytes(&[9; 32]), Some(p));
}
