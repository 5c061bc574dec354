use std::collections::HashMap;

use portal_verkle::error::VerkleTrieError;
use portal_verkle::nodes::leaf::LeafNode;
use portal_verkle::path::TriePath;
use portal_verkle::primitives::{Stem, TrieKey, TrieValue};
use portal_verkle::state_write::{StateWrites, StemStateWrite, SuffixWrite};
use portal_verkle::trie::VerkleTrie;
use portal_verkle::witness::{
    into_checked_state_writes, into_state_writes, StemStateDiff, SuffixStateDiff,
};
use portal_verkle::word_curve::WordCurve;

type Trie = VerkleTrie<WordCurve>;

fn stem(first: u8, second: u8) -> Stem {
    let mut bytes = [0u8; 31];
    bytes[0] = first;
    bytes[1] = second;
    Stem::new(bytes)
}

fn value(byte: u8) -> TrieValue {
    TrieValue::new([byte; 32])
}

fn plain(stem: Stem, writes: &[(u8, u8)]) -> StemStateWrite {
    let writes: HashMap<u8, SuffixWrite> =
        writes.iter().map(|(suffix, v)| (*suffix, SuffixWrite::new(value(*v)))).collect();
    StemStateWrite::new(stem, writes)
}

#[test]
fn update_stores_every_write() {
    let mut trie = Trie::new();
    let writes = StateWrites::new(vec![
        plain(stem(1, 1), &[(0, 10), (200, 11)]),
        plain(stem(2, 0), &[(5, 12)]),
    ]);
    let created = trie.update(&writes).unwrap();
    assert!(created.is_empty());
    assert_eq!(trie.get(&TrieKey::from_stem_and_suffix(&stem(1, 1), 0)), Some(&value(10)));
    assert_eq!(trie.get(&TrieKey::from_stem_and_suffix(&stem(1, 1), 200)), Some(&value(11)));
    assert_eq!(trie.get(&TrieKey::from_stem_and_suffix(&stem(2, 0), 5)), Some(&value(12)));
    assert_eq!(trie.get(&TrieKey::from_stem_and_suffix(&stem(2, 0), 6)), None);
}

#[test]
fn update_is_the_same_as_inserts() {
    let mut updated = Trie::new();
    updated
        .update(&StateWrites::new(vec![
            plain(stem(1, 1), &[(0, 10), (200, 11)]),
            plain(stem(1, 2), &[(5, 12)]),
        ]))
        .unwrap();
    let mut inserted = Trie::new();
    inserted.insert(&TrieKey::from_stem_and_suffix(&stem(1, 2), 5), value(12));
    inserted.insert(&TrieKey::from_stem_and_suffix(&stem(1, 1), 200), value(11));
    inserted.insert(&TrieKey::from_stem_and_suffix(&stem(1, 1), 0), value(10));
    assert_eq!(updated.root_commitment(), inserted.root_commitment());
}

#[test]
fn update_reports_the_branch_it_creates() {
    let mut trie = Trie::new();
    let first = trie.update(&StateWrites::new(vec![plain(stem(7, 1), &[(0, 1)])])).unwrap();
    assert!(first.is_empty());
    let second = trie.update(&StateWrites::new(vec![plain(stem(7, 2), &[(0, 1)])])).unwrap();
    assert_eq!(second, vec![TriePath::new(vec![7])]);
    // the branch is there now: a third stem below it creates nothing
    let third = trie.update(&StateWrites::new(vec![plain(stem(7, 3), &[(0, 1)])])).unwrap();
    assert!(third.is_empty());
}

#[test]
fn a_long_common_prefix_reports_the_topmost_new_branch() {
    let mut a = [9u8; 31];
    let mut b = [9u8; 31];
    a[4] = 1;
    b[4] = 2;
    let mut trie = Trie::new();
    trie.update_stem(&plain(Stem::new(a), &[(0, 1)])).unwrap();
    let created = trie.update_stem(&plain(Stem::new(b), &[(0, 2)])).unwrap();
    assert_eq!(created, Some(TriePath::new(vec![9])));
    assert_eq!(trie.get(&TrieKey::from_stem_and_suffix(&Stem::new(a), 0)), Some(&value(1)));
    assert_eq!(trie.get(&TrieKey::from_stem_and_suffix(&Stem::new(b), 0)), Some(&value(2)));
    let path = trie.traverse_to_leaf(&Stem::new(b)).unwrap();
    assert_eq!(path.trie_path.len(), 5);
    assert!(path.leaf.is_some());
}

#[test]
fn stems_that_differ_in_the_last_byte_only() {
    let mut a = [3u8; 31];
    let mut b = [3u8; 31];
    a[30] = 1;
    b[30] = 2;
    let mut trie = Trie::new();
    trie.insert(&TrieKey::from_stem_and_suffix(&Stem::new(a), 0), value(1));
    trie.insert(&TrieKey::from_stem_and_suffix(&Stem::new(b), 0), value(2));
    let path = trie.traverse_to_leaf(&Stem::new(a)).unwrap();
    assert_eq!(path.trie_path.len(), 31);
    assert_eq!(path.trie_path[30].1, 1);
    assert_eq!(trie.get(&TrieKey::from_stem_and_suffix(&Stem::new(a), 0)), Some(&value(1)));
    assert_eq!(trie.get(&TrieKey::from_stem_and_suffix(&Stem::new(b), 0)), Some(&value(2)));
}

#[test]
fn wrong_old_value_is_refused_and_changes_nothing() {
    let mut trie = Trie::new();
    trie.insert(&TrieKey::from_stem_and_suffix(&stem(1, 1), 4), value(1));
    let before = trie.root_commitment();

    let mut writes = HashMap::new();
    writes.insert(3, SuffixWrite::new(value(7)));
    writes.insert(4, SuffixWrite::with_expected(Some(value(2)), value(8)));
    writes.insert(9, SuffixWrite::with_expected(Some(value(2)), value(9)));
    let result = trie.update_stem(&StemStateWrite::new(stem(1, 1), writes));
    assert_eq!(
        result,
        Err(VerkleTrieError::WrongOldValue {
            stem: stem(1, 1),
            index: 4,
            expected: Some(value(2)),
            actual: Some(value(1)),
        })
    );
    assert_eq!(trie.root_commitment(), before);
    assert_eq!(trie.get(&TrieKey::from_stem_and_suffix(&stem(1, 1), 3)), None);
}

#[test]
fn expecting_an_empty_slot() {
    let mut trie = Trie::new();
    let mut writes = HashMap::new();
    writes.insert(4, SuffixWrite::with_expected(None, value(8)));
    let write = StemStateWrite::new(stem(1, 1), writes);
    assert_eq!(trie.update_stem(&write), Ok(None));
    // the slot is taken now
    assert_eq!(
        trie.update_stem(&write),
        Err(VerkleTrieError::WrongOldValue {
            stem: stem(1, 1),
            index: 4,
            expected: None,
            actual: Some(value(8)),
        })
    );
}

#[test]
fn expecting_a_value_where_the_stem_is_new() {
    let mut trie = Trie::new();
    trie.insert(&TrieKey::from_stem_and_suffix(&stem(1, 1), 4), value(1));
    let mut writes = HashMap::new();
    writes.insert(4, SuffixWrite::with_expected(Some(value(1)), value(8)));
    // another stem in the same slot of the root: its leaf does not exist
    let result = trie.update_stem(&StemStateWrite::new(stem(1, 2), writes));
    assert_eq!(
        result,
        Err(VerkleTrieError::WrongOldValue {
            stem: stem(1, 2),
            index: 4,
            expected: Some(value(1)),
            actual: None,
        })
    );
    assert_eq!(trie.traverse_to_leaf(&stem(1, 2)).unwrap().leaf.map(|_| ()), None);
}

#[test]
fn a_failed_stem_keeps_the_stems_before_it() {
    let mut trie = Trie::new();
    let mut bad = HashMap::new();
    bad.insert(0, SuffixWrite::with_expected(Some(value(1)), value(2)));
    let writes = StateWrites::new(vec![
        plain(stem(1, 0), &[(0, 1)]),
        StemStateWrite::new(stem(2, 0), bad),
        plain(stem(3, 0), &[(0, 3)]),
    ]);
    assert!(matches!(trie.update(&writes), Err(VerkleTrieError::WrongOldValue { .. })));
    assert_eq!(trie.get(&TrieKey::from_stem_and_suffix(&stem(1, 0), 0)), Some(&value(1)));
    assert_eq!(trie.get(&TrieKey::from_stem_and_suffix(&stem(2, 0), 0)), None);
    assert_eq!(trie.get(&TrieKey::from_stem_and_suffix(&stem(3, 0), 0)), None);
}

#[test]
fn leaf_refuses_another_stem() {
    let mut leaf = LeafNode::<WordCurve>::new(stem(1, 1));
    let before = leaf.commitment();
    let result = leaf.update(&plain(stem(1, 2), &[(0, 1)]));
    assert_eq!(
        result,
        Err(VerkleTrieError::UnexpectedStem { expected: stem(1, 1), actual: stem(1, 2) })
    );
    assert_eq!(leaf.commitment(), before);
    assert_eq!(leaf.update(&plain(stem(1, 1), &[(0, 1)])), Ok(()));
    assert_eq!(leaf.get(0), Some(&value(1)));
}

#[test]
fn traversal_into_an_empty_slot() {
    let mut trie = Trie::new();
    trie.insert(&TrieKey::from_stem_and_suffix(&stem(1, 1), 0), value(1));
    assert!(matches!(trie.traverse_to_leaf(&stem(2, 0)), Err(VerkleTrieError::NodeNotFound)));
    let found = trie.traverse_to_leaf(&stem(1, 1)).unwrap();
    assert_eq!(found.trie_path.len(), 1);
    assert_eq!(found.trie_path[0].1, 1);
    assert_eq!(found.leaf.unwrap().stem(), &stem(1, 1));
    // the slot holds the leaf of another stem
    let other = trie.traverse_to_leaf(&stem(1, 9)).unwrap();
    assert!(other.leaf.is_none());
}

#[test]
fn diffs_without_new_values_make_no_writes() {
    let unchanged = StemStateDiff {
        stem: stem(1, 0),
        suffix_diffs: vec![SuffixStateDiff {
            suffix: 1,
            current_value: Some(value(1)),
            new_value: None,
        }],
    };
    assert!(unchanged.clone().into_stem_state_write().is_none());

    let changed = StemStateDiff {
        stem: stem(2, 0),
        suffix_diffs: vec![
            SuffixStateDiff { suffix: 1, current_value: None, new_value: Some(value(1)) },
            SuffixStateDiff { suffix: 2, current_value: Some(value(5)), new_value: None },
            SuffixStateDiff { suffix: 1, current_value: None, new_value: Some(value(3)) },
        ],
    };
    let write = changed.clone().into_stem_state_write().unwrap();
    assert_eq!(write.stem, stem(2, 0));
    assert_eq!(write.writes.len(), 1);
    assert_eq!(write.writes[&1], SuffixWrite::new(value(3)));

    let writes = into_state_writes(&vec![unchanged, changed]);
    assert_eq!(writes.len(), 1);
    assert_eq!(writes.writes[0].stem, stem(2, 0));
}

#[test]
fn checked_writes_expect_the_values_before() {
    let state_diff = vec![StemStateDiff {
        stem: stem(2, 0),
        suffix_diffs: vec![
            SuffixStateDiff { suffix: 1, current_value: None, new_value: Some(value(1)) },
            SuffixStateDiff { suffix: 2, current_value: Some(value(5)), new_value: Some(value(6)) },
            SuffixStateDiff { suffix: 3, current_value: Some(value(7)), new_value: None },
        ],
    }];
    let writes = into_checked_state_writes(&state_diff);
    assert_eq!(writes.len(), 1);
    let write = &writes.writes[0];
    assert_eq!(write.writes.len(), 2);
    assert_eq!(write.writes[&1], SuffixWrite::with_expected(None, value(1)));
    assert_eq!(write.writes[&2], SuffixWrite::with_expected(Some(value(5)), value(6)));

    let mut trie = Trie::new();
    // slot 2 is empty, and the write expects 5 there
    assert_eq!(
        trie.update(&writes),
        Err(VerkleTrieError::WrongOldValue {
            stem: stem(2, 0),
            index: 2,
            expected: Some(value(5)),
            actual: None,
        })
    );
    trie.insert(&TrieKey::from_stem_and_suffix(&stem(2, 0), 2), value(5));
    assert_eq!(trie.update(&writes), Ok(vec![]));
    assert_eq!(trie.get(&TrieKey::from_stem_and_suffix(&stem(2, 0), 2)), Some(&value(6)));
}

#[test]
fn branches_are_found_by_their_paths() {
    let mut trie = Trie::new();
    trie.insert(&TrieKey::from_stem_and_suffix(&stem(7, 1), 0), value(1));
    trie.insert(&TrieKey::from_stem_and_suffix(&stem(7, 2), 0), value(2));
    let root = trie.branch_at(&TriePath::root()).unwrap();
    assert_eq!(root.commitment(), trie.root().commitment());
    let below = trie.branch_at(&TriePath::new(vec![7])).unwrap();
    assert!(!below.get_child(1).is_empty());
    assert!(!below.get_child(2).is_empty());
    assert!(below.get_child(3).is_empty());
    // a leaf is no branch, and an empty slot neither
    assert!(trie.branch_at(&TriePath::new(vec![7, 1])).is_none());
    assert!(trie.branch_at(&TriePath::new(vec![8])).is_none());
    let prefix = TriePath::from_stem_prefix(&stem(7, 2), 1);
    assert_eq!(prefix, TriePath::new(vec![7]));
    assert_eq!(prefix.len(), 1);
    assert!(prefix.equals(&TriePath::new(vec![7])));
}
