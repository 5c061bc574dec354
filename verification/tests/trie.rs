use portal_verkle::curve::Curve;
use portal_verkle::nodes::branch::BranchNode;
use portal_verkle::nodes::leaf::LeafNode;
use portal_verkle::nodes::Node;
use portal_verkle::primitives::{Stem, TrieKey, TrieValue};
use portal_verkle::trie::VerkleTrie;
use portal_verkle::word_curve::{WordCurve, WordPoint, WordScalar};

type Trie = VerkleTrie<WordCurve>;

fn key(first: u8, second: u8, suffix: u8) -> TrieKey {
    let mut bytes = [0u8; 32];
    bytes[0] = first;
    bytes[1] = second;
    bytes[31] = suffix;
    TrieKey::new(bytes)
}

fn value(last: u8) -> TrieValue {
    let mut bytes = [0u8; 32];
    bytes[31] = last;
    TrieValue::new(bytes)
}

fn count_children(branch: &BranchNode<WordCurve>) -> usize {
    (0..256).filter(|i| !branch.get_child(*i).is_empty()).count()
}

#[test]
fn empty_trie_has_zero_root() {
    let mut trie = Trie::new();
    assert_eq!(trie.root_commitment(), WordPoint { bytes: [0; 32] });
    assert_eq!(trie.root_hash(), WordScalar { bytes: [0; 32] });
    assert_eq!(count_children(trie.root()), 0);
}

#[test]
fn single_write() {
    let mut trie = Trie::new();
    let k = TrieKey::new([0u8; 32]);
    let v = value(1);
    trie.insert(&k, v);
    assert_eq!(count_children(trie.root()), 1);
    assert!(matches!(trie.root().get_child(0), Node::Leaf(_)));
    assert_eq!(trie.get(&k), Some(&v));
    assert_eq!(trie.get(&key(0, 0, 1)), None);
    assert_eq!(trie.get(&key(0, 1, 0)), None);
    assert_eq!(trie.get(&key(1, 0, 0)), None);
    assert_ne!(trie.root_commitment(), WordPoint { bytes: [0; 32] });
}

#[test]
fn split_moves_the_leaf_down() {
    let k1 = key(0, 1, 0);
    let k2 = key(0, 2, 0);
    let v1 = value(7);
    let v2 = value(9);

    let mut trie = Trie::new();
    trie.insert(&k1, v1);
    assert_eq!(count_children(trie.root()), 1);
    assert!(matches!(trie.root().get_child(0), Node::Leaf(_)));

    trie.insert(&k2, v2);
    assert_eq!(count_children(trie.root()), 1);
    match trie.root().get_child(0) {
        Node::Branch(branch) => {
            assert_eq!(count_children(branch), 2);
            assert!(matches!(branch.get_child(1), Node::Leaf(_)));
            assert!(matches!(branch.get_child(2), Node::Leaf(_)));
        }
        _ => panic!("the slot holds no branch"),
    }
    assert_eq!(trie.get(&k1), Some(&v1));
    assert_eq!(trie.get(&k2), Some(&v2));

    let mut reversed = Trie::new();
    reversed.insert(&k2, v2);
    reversed.insert(&k1, v1);
    assert_eq!(trie.root_commitment(), reversed.root_commitment());
}

#[test]
fn inserting_twice_changes_nothing() {
    let k = key(3, 4, 5);
    let v = value(6);
    let mut trie = Trie::new();
    trie.insert(&key(3, 9, 1), value(2));
    trie.insert(&k, v);
    let once = trie.root_commitment();
    trie.insert(&k, v);
    assert_eq!(trie.root_commitment(), once);
    assert_eq!(trie.get(&k), Some(&v));
}

#[test]
fn overwriting_a_value_changes_the_root() {
    let k = key(3, 4, 5);
    let mut trie = Trie::new();
    trie.insert(&k, value(6));
    let first = trie.root_commitment();
    trie.insert(&k, value(7));
    assert_ne!(trie.root_commitment(), first);
    assert_eq!(trie.get(&k), Some(&value(7)));
    trie.insert(&k, value(6));
    assert_eq!(trie.root_commitment(), first);
}

#[test]
fn writes_to_different_stems_commute() {
    let writes = [
        (key(1, 1, 0), value(1)),
        (key(1, 1, 200), value(2)),
        (key(1, 2, 0), value(3)),
        (key(2, 0, 0), value(4)),
        (key(1, 1, 7), value(5)),
    ];
    let mut forward = Trie::new();
    for (k, v) in writes.iter() {
        forward.insert(k, *v);
    }
    let mut backward = Trie::new();
    for (k, v) in writes.iter().rev() {
        backward.insert(k, *v);
    }
    assert_eq!(forward.root_commitment(), backward.root_commitment());
    for (k, v) in writes.iter() {
        assert_eq!(forward.get(k), Some(v));
        assert_eq!(backward.get(k), Some(v));
    }
}

#[test]
fn leaf_commitment_is_that_of_its_values() {
    let stem = Stem::new([5u8; 31]);
    let mut leaf = LeafNode::<WordCurve>::new(stem);
    leaf.set(3, value(1));
    leaf.set(130, value(2));
    leaf.set(3, value(9));

    let mut children = [None; 256];
    children[3] = Some(value(9));
    children[130] = Some(value(2));
    let fresh = LeafNode::<WordCurve>::new_with_childrent(stem, children);
    assert_eq!(leaf.commitment(), fresh.commitment());
    assert_eq!(leaf.get(3), Some(&value(9)));
    assert_eq!(leaf.get(4), None);
    assert_eq!(leaf.version(), 1);
    assert_eq!(leaf.stem(), &stem);
}

#[test]
fn leaf_commitment_has_four_terms() {
    let stem = Stem::new([0u8; 31]);
    let leaf = LeafNode::<WordCurve>::new(stem);
    // no values: only the marker term is left, since the stem is zero
    let one = WordCurve::scalar_from_le_bytes(&[1]);
    assert_eq!(leaf.commitment(), WordCurve::commit_single(0, &one));
}

#[test]
fn branch_commitment_is_the_sum_over_its_children() {
    let mut trie = Trie::new();
    trie.insert(&key(1, 0, 0), value(1));
    trie.insert(&key(9, 0, 0), value(2));
    let mut expected = WordCurve::point_zero();
    for i in 0..=255u8 {
        let child = trie.root().get_child(i as usize).commitment();
        let term = WordCurve::commit_single(i, &WordCurve::map_to_scalar_field(&child));
        expected = WordCurve::point_add(&expected, &term);
    }
    assert_eq!(trie.root_commitment(), expected);
}

fn check_branch(branch: &BranchNode<WordCurve>, depth: usize) -> usize {
    let mut expected = WordCurve::point_zero();
    let mut leaves = 0;
    for i in 0..=255u8 {
        let child = branch.get_child(i as usize);
        let term =
            WordCurve::commit_single(i, &WordCurve::map_to_scalar_field(&child.commitment()));
        expected = WordCurve::point_add(&expected, &term);
        match child {
            Node::Empty => assert_eq!(child.commitment(), WordCurve::point_zero()),
            Node::Branch(below) => leaves += check_branch(below, depth + 1),
            Node::Leaf(leaf) => {
                assert_eq!(leaf.stem().as_bytes()[depth], i);
                let mut values = [None; 256];
                for (suffix, slot) in values.iter_mut().enumerate() {
                    *slot = leaf.get(suffix).copied();
                }
                let fresh = LeafNode::<WordCurve>::new_with_childrent(*leaf.stem(), values);
                assert_eq!(leaf.commitment(), fresh.commitment());
                leaves += 1;
            }
        }
    }
    assert_eq!(*branch.commitment(), expected);
    leaves
}

#[test]
fn every_node_commits_to_what_is_below_it() {
    let mut trie = Trie::new();
    let mut seed: u32 = 12345;
    let mut stems = std::collections::HashSet::new();
    for round in 0..60 {
        seed = seed.wrapping_mul(1_103_515_245).wrapping_add(12_345);
        let mut bytes = [0u8; 32];
        // few first bytes, so that stems share prefixes and leaves move down
        bytes[0] = (seed >> 8) as u8 % 3;
        bytes[1] = (seed >> 16) as u8 % 3;
        bytes[2] = (seed >> 24) as u8 % 4;
        bytes[31] = round as u8 * 4;
        let mut v = [0u8; 32];
        v[..4].copy_from_slice(&seed.to_le_bytes());
        v[20] = round as u8;
        trie.insert(&TrieKey::new(bytes), TrieValue::new(v));
        stems.insert([bytes[0], bytes[1], bytes[2]]);
        assert_eq!(trie.get(&TrieKey::new(bytes)), Some(&TrieValue::new(v)));
    }
    assert_eq!(check_branch(trie.root(), 0), stems.len());
}
