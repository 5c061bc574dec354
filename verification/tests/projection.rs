use portal_verkle::curve::Curve;
use portal_verkle::nodes::leaf::LeafNode;
use portal_verkle::nodes::Node;
use portal_verkle::portal::branch_fragment::BranchFragmentNode;
use portal_verkle::primitives::{Stem, TrieKey, TrieValue};
use portal_verkle::trie::VerkleTrie;
use portal_verkle::word_curve::{WordCurve, WordPoint};

type Trie = VerkleTrie<WordCurve>;

const ZERO: WordPoint = WordPoint { bytes: [0; 32] };

fn key(first: u8, suffix: u8) -> TrieKey {
    let mut bytes = [0u8; 32];
    bytes[0] = first;
    bytes[31] = suffix;
    TrieKey::new(bytes)
}

fn value(byte: u8) -> TrieValue {
    TrieValue::new([byte; 32])
}

fn sum(points: impl Iterator<Item = WordPoint>) -> WordPoint {
    points.fold(ZERO, |total, point| WordCurve::point_add(&total, &point))
}

fn populated() -> Trie {
    let mut trie = Trie::new();
    trie.insert(&key(0, 0), value(1));
    trie.insert(&key(3, 0), value(2));
    trie.insert(&key(8, 0), value(3));
    trie.insert(&key(200, 7), value(4));
    trie
}

#[test]
fn fragment_commitments_add_up_to_the_branch_commitment() {
    let trie = populated();
    let root = trie.root();
    let fragments: Vec<Option<WordPoint>> =
        (0..32).map(|f| root.get_fragment_commitment(f)).collect();
    // children 0 and 3 are in fragment 0, child 8 in fragment 1, child 200 in fragment 25
    for (f, fragment) in fragments.iter().enumerate() {
        assert_eq!(fragment.is_some(), f == 0 || f == 1 || f == 25);
    }
    assert_eq!(sum(fragments.iter().flatten().copied()), trie.root_commitment());
}

#[test]
fn fragment_commitment_is_the_sum_over_its_children() {
    let trie = populated();
    let root = trie.root();
    let mut expected = ZERO;
    for child in 0..8u8 {
        let commitment = root.get_child(child as usize).commitment();
        let term = WordCurve::commit_single(child, &WordCurve::map_to_scalar_field(&commitment));
        expected = WordCurve::point_add(&expected, &term);
    }
    assert_eq!(root.get_fragment_commitment(0), Some(expected));
}

#[test]
fn bundle_commits_to_what_the_branch_commits_to() {
    let trie = populated();
    let bundle = trie.root().extract_bundle_node();
    assert_eq!(bundle.commitment(), trie.root_commitment());
    assert!(bundle.verify(&trie.root_commitment()));
    assert!(!bundle.verify(&ZERO));
    assert_eq!(bundle.fragments().iter_set_items().len(), 3);
    let positions: Vec<usize> =
        bundle.fragments().iter_enumerated_set_items().iter().map(|(i, _)| *i).collect();
    assert_eq!(positions, vec![0, 1, 25]);
}

#[test]
fn fragment_node_holds_the_children() {
    let trie = populated();
    let root = trie.root();
    let (commitment, fragment) = root.extract_fragment_node(0);
    assert_eq!(Some(commitment), root.get_fragment_commitment(0));
    assert_eq!(fragment.fragment_index(), 0);
    assert_eq!(fragment.commitment(), commitment);
    assert!(fragment.verify(&commitment));
    for k in 0..8 {
        let child = root.get_child(k).commitment();
        if k == 0 || k == 3 {
            assert_eq!(fragment.children().get(k), Some(child));
        } else {
            assert_eq!(fragment.children().get(k), None);
        }
    }
    let (empty, nothing) = root.extract_fragment_node(5);
    assert_eq!(empty, ZERO);
    assert!(nothing.children().iter_set_items().is_empty());
}

#[test]
fn branch_rebuilt_from_its_fragments_has_the_same_commitment() {
    let trie = populated();
    let root = trie.root();
    let mut total = ZERO;
    for f in 0..32 {
        let mut children = [ZERO; 8];
        for k in 0..8 {
            children[k] = root.get_child(8 * f + k).commitment();
        }
        let rebuilt = BranchFragmentNode::<WordCurve>::new_with_children(f, children);
        let expected = root.get_fragment_commitment(f).unwrap_or(ZERO);
        assert_eq!(*rebuilt.commitment(), expected);
        total = WordCurve::point_add(&total, rebuilt.commitment());
    }
    assert_eq!(total, trie.root_commitment());
}

#[test]
fn branch_fragment_is_kept_up_to_date() {
    let trie = populated();
    let root = trie.root();
    let mut fragment = BranchFragmentNode::<WordCurve>::new(0);
    assert_eq!(*fragment.commitment(), ZERO);
    assert_eq!(*fragment.get(3), ZERO);
    for k in 0..8 {
        fragment.set(k, root.get_child(k).commitment());
    }
    assert_eq!(Some(*fragment.commitment()), root.get_fragment_commitment(0));
    assert_eq!(*fragment.get(3), root.get_child(3).commitment());
    // taking a child out again
    fragment.set(3, ZERO);
    let mut children = [ZERO; 8];
    children[0] = root.get_child(0).commitment();
    let expected = BranchFragmentNode::<WordCurve>::new_with_children(0, children);
    assert_eq!(fragment.commitment(), expected.commitment());
    assert_eq!(BranchFragmentNode::<WordCurve>::bases_index(3, 5), 29);
}

#[test]
fn leaf_fragments_add_up_to_the_two_halves() {
    let mut leaf = LeafNode::<WordCurve>::new(Stem::new([1; 31]));
    leaf.set(0, value(1));
    leaf.set(9, value(2));
    leaf.set(127, value(3));
    leaf.set(128, value(4));
    leaf.set(255, value(5));
    let fragments: Vec<Option<WordPoint>> =
        (0..32).map(|f| leaf.get_fragment_commitment(f)).collect();
    for (f, fragment) in fragments.iter().enumerate() {
        assert_eq!(fragment.is_some(), [0, 1, 15, 16, 31].contains(&f));
    }
    let c1 = sum(fragments[..16].iter().flatten().copied());
    let c2 = sum(fragments[16..].iter().flatten().copied());

    let mut first_half = [None; 256];
    first_half[0] = Some(value(1));
    first_half[9] = Some(value(2));
    first_half[127] = Some(value(3));
    let only_first = LeafNode::<WordCurve>::new_with_childrent(Stem::new([1; 31]), first_half);
    let only_first_fragments = sum((0..32).filter_map(|f| only_first.get_fragment_commitment(f)));
    assert_eq!(c1, only_first_fragments);
    assert_ne!(c2, ZERO);

    let bundle = leaf.extract_bundle_node();
    assert_eq!(bundle.commitment(), leaf.commitment());
    assert!(bundle.verify(&leaf.commitment()));
    assert_eq!(bundle.marker(), 1);
    assert_eq!(bundle.stem(), leaf.stem());
}

#[test]
fn leaf_fragment_uses_the_suffix_modulo_128() {
    // suffix 130 is in fragment 16 and commits at the basis points 4 and 5
    let mut leaf = LeafNode::<WordCurve>::new(Stem::new([1; 31]));
    let v = value(7);
    leaf.set(130, v);
    let (low, high) = v.split::<WordCurve>();
    let expected = WordCurve::point_add(
        &WordCurve::commit_single(4, &low),
        &WordCurve::commit_single(5, &high),
    );
    assert_eq!(leaf.get_fragment_commitment(16), Some(expected));

    let (commitment, fragment) = leaf.extract_fragment_node(16);
    assert_eq!(commitment, expected);
    assert_eq!(fragment.fragment_index(), 16);
    assert_eq!(fragment.children().get(2), Some(v));
    assert_eq!(fragment.children().get(3), None);
    assert_eq!(fragment.commitment::<WordCurve>(), expected);
    assert!(fragment.verify::<WordCurve>(&expected));
}

#[test]
fn a_value_of_zeros_still_commits() {
    // the low half carries the marker 2^128, so a stored zero differs from an empty slot
    let mut leaf = LeafNode::<WordCurve>::new(Stem::new([1; 31]));
    let empty = leaf.commitment();
    leaf.set(0, TrieValue::new([0; 32]));
    assert_ne!(leaf.commitment(), empty);
    let (low, high) = TrieValue::new([0; 32]).split::<WordCurve>();
    let mut marker = [0u8; 32];
    marker[16] = 1;
    assert_eq!(low.bytes, marker);
    assert_eq!(high.bytes, [0u8; 32]);
}

#[test]
fn split_reads_both_halves_little_endian() {
    let mut bytes = [0u8; 32];
    bytes[0] = 0x34;
    bytes[1] = 0x12;
    bytes[16] = 0x78;
    bytes[31] = 0x56;
    let (low, high) = TrieValue::new(bytes).split::<WordCurve>();
    let mut expected_low = [0u8; 32];
    expected_low[0] = 0x34;
    expected_low[1] = 0x12;
    expected_low[16] = 1;
    let mut expected_high = [0u8; 32];
    expected_high[0] = 0x78;
    expected_high[15] = 0x56;
    assert_eq!(low.bytes, expected_low);
    assert_eq!(high.bytes, expected_high);
}

#[test]
fn the_root_has_the_children_that_were_written() {
    let trie = populated();
    for i in 0..256usize {
        let child = trie.root().get_child(i);
        match i {
            0 | 3 | 8 | 200 => assert!(matches!(child, Node::Leaf(_))),
            _ => assert!(child.is_empty()),
        }
    }
}
