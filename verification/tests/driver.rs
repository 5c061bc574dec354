use std::collections::HashMap;

use portal_verkle::account::{Address, U256};
use portal_verkle::args::Args;
use portal_verkle::curve::Curve;
use portal_verkle::error::{EvmError, VerkleTrieError};
use portal_verkle::evm::VerkleEvm;
use portal_verkle::genesis::{AccountAlloc, GenesisConfig};
use portal_verkle::gossip::plan_gossip;
use portal_verkle::nodes::Node;
use portal_verkle::path::TriePath;
use portal_verkle::portal::content::{PortalVerkleNode, VerkleContentKey, VerkleContentValue};
use portal_verkle::portal::nodes::LeafFragmentNode;
use portal_verkle::portal::sparse_vector::SparseVector;
use portal_verkle::portal::wire::encode_content_key;
use portal_verkle::primitives::{Stem, TrieKey, TrieValue};
use portal_verkle::state_trie_fetcher::{process_content, FetchError};
use portal_verkle::state_write::{StateWrites, StemStateWrite, SuffixWrite};
use portal_verkle::trie::VerkleTrie;
use portal_verkle::utils::{beacon_slot_path, genesis_path, test_path};
use portal_verkle::witness::{into_state_writes, StemStateDiff, SuffixStateDiff};
use portal_verkle::word_curve::{WordCurve, WordPoint};

type Trie = VerkleTrie<WordCurve>;

fn stem(first: u8, second: u8) -> Stem {
    let mut bytes = [0u8; 31];
    bytes[0] = first;
    bytes[1] = second;
    Stem::new(bytes)
}

fn value(byte: u8) -> TrieValue {
    TrieValue::new([byte; 32])
}

fn plain(stem: Stem, writes: &[(u8, u8)]) -> StemStateWrite {
    let writes: HashMap<u8, SuffixWrite> =
        writes.iter().map(|(suffix, v)| (*suffix, SuffixWrite::new(value(*v)))).collect();
    StemStateWrite::new(stem, writes)
}

fn mask(fragments: &[usize]) -> [bool; 32] {
    let mut mask = [false; 32];
    for f in fragments {
        mask[*f] = true;
    }
    mask
}

#[test]
fn plan_for_a_block() {
    let mut trie = Trie::new();
    trie.update(&StateWrites::new(vec![
        plain(stem(1, 1), &[(0, 1)]),
        plain(stem(200, 0), &[(0, 2)]),
    ]))
    .unwrap();

    // the block writes below a new branch at [1], and to the old leaf at 200
    let writes = StateWrites::new(vec![
        plain(stem(1, 17), &[(8, 3), (9, 4), (255, 5)]),
        plain(stem(200, 0), &[(64, 6)]),
    ]);
    let created = trie.update(&writes).unwrap();
    assert_eq!(created, vec![TriePath::new(vec![1])]);

    let plan = plan_gossip(&trie, &writes, &created).unwrap();
    let paths: Vec<&[u8]> = plan.branches.iter().map(|b| b.path.as_slice()).collect();
    assert_eq!(paths, vec![&[][..], &[1][..]]);
    // the root is old: the fragments of children 1 and 200
    assert_eq!(plan.branches[0].fragments, mask(&[0, 25]));
    // the branch at [1] is new: the fragments of its children 1 and 17
    assert_eq!(plan.branches[1].fragments, mask(&[0, 2]));

    let stems: Vec<Stem> = plan.leaves.iter().map(|l| l.stem).collect();
    assert_eq!(stems, vec![stem(1, 17), stem(200, 0)]);
    assert_eq!(plan.leaves[0].fragments, mask(&[1, 31]));
    assert_eq!(plan.leaves[1].fragments, mask(&[8]));
}

#[test]
fn plan_orders_branches_by_length_first() {
    let mut trie = Trie::new();
    let writes = StateWrites::new(vec![
        plain(stem(9, 1), &[(0, 1)]),
        plain(stem(9, 2), &[(0, 1)]),
        plain(stem(2, 1), &[(0, 1)]),
        plain(stem(2, 2), &[(0, 1)]),
    ]);
    let created = trie.update(&writes).unwrap();
    assert_eq!(created, vec![TriePath::new(vec![9]), TriePath::new(vec![2])]);
    let plan = plan_gossip(&trie, &writes, &created).unwrap();
    let paths: Vec<&[u8]> = plan.branches.iter().map(|b| b.path.as_slice()).collect();
    assert_eq!(paths, vec![&[][..], &[2][..], &[9][..]]);
    assert!(TriePath::new(vec![200]).less_than(&TriePath::new(vec![0, 0])));
    assert!(TriePath::new(vec![1, 2]).less_than(&TriePath::new(vec![1, 3])));
    assert!(!TriePath::new(vec![1, 3]).less_than(&TriePath::new(vec![1, 3])));
}

#[test]
fn plan_needs_the_written_leaves() {
    let mut trie = Trie::new();
    trie.update(&StateWrites::new(vec![plain(stem(1, 1), &[(0, 1)])])).unwrap();
    let missing = StateWrites::new(vec![plain(stem(5, 5), &[(0, 1)])]);
    assert_eq!(plan_gossip(&trie, &missing, &vec![]), Err(VerkleTrieError::NodeNotFound));
    let other_stem = StateWrites::new(vec![plain(stem(1, 2), &[(0, 1)])]);
    assert_eq!(plan_gossip(&trie, &other_stem, &vec![]), Err(VerkleTrieError::NodeNotFound));
}

/// Walks the content of `source` as the fetcher does and rebuilds the trie.
fn rebuild(source: &Trie) -> Result<Trie, FetchError> {
    let mut store: HashMap<Vec<u8>, VerkleContentValue<WordCurve>> = HashMap::new();
    fn put_branch(
        store: &mut HashMap<Vec<u8>, VerkleContentValue<WordCurve>>,
        branch: &portal_verkle::nodes::branch::BranchNode<WordCurve>,
    ) {
        let key = VerkleContentKey::<WordCurve>::Bundle(*branch.commitment());
        store.insert(
            encode_content_key(&key),
            VerkleContentValue::Node(PortalVerkleNode::BranchBundle(branch.extract_bundle_node())),
        );
        for f in 0..32 {
            if let Some(commitment) = branch.get_fragment_commitment(f) {
                let key = VerkleContentKey::<WordCurve>::BranchFragment(commitment);
                store.insert(
                    encode_content_key(&key),
                    VerkleContentValue::Node(PortalVerkleNode::BranchFragment(
                        branch.extract_fragment_node(f).1,
                    )),
                );
            }
        }
        for i in 0..256 {
            match branch.get_child(i) {
                Node::Empty => {}
                Node::Branch(below) => put_branch(store, below),
                Node::Leaf(leaf) => {
                    let key = VerkleContentKey::<WordCurve>::Bundle(leaf.commitment());
                    store.insert(
                        encode_content_key(&key),
                        VerkleContentValue::Node(PortalVerkleNode::LeafBundle(
                            leaf.extract_bundle_node(),
                        )),
                    );
                    for f in 0..32 {
                        if let Some(commitment) = leaf.get_fragment_commitment(f) {
                            let key = VerkleContentKey::<WordCurve>::LeafFragment(
                                portal_verkle::portal::content::LeafFragmentKey {
                                    stem: *leaf.stem(),
                                    commitment,
                                },
                            );
                            store.insert(
                                encode_content_key(&key),
                                VerkleContentValue::Node(PortalVerkleNode::LeafFragment(
                                    leaf.extract_fragment_node(f).1,
                                )),
                            );
                        }
                    }
                }
            }
        }
    }
    put_branch(&mut store, source.root());

    let mut trie = Trie::new();
    let mut stack = vec![VerkleContentKey::<WordCurve>::Bundle(source.root_commitment())];
    while let Some(key) = stack.pop() {
        let value = store.get(&encode_content_key(&key)).expect("content is stored");
        stack.extend(process_content(&mut trie, &key, value)?);
    }
    Ok(trie)
}

#[test]
fn a_trie_is_rebuilt_from_its_content() {
    let mut source = Trie::new();
    source
        .update(&StateWrites::new(vec![
            plain(stem(1, 1), &[(0, 1), (100, 2), (255, 3)]),
            plain(stem(1, 2), &[(7, 4)]),
            plain(stem(77, 0), &[(64, 5)]),
        ]))
        .unwrap();
    let rebuilt = rebuild(&source).unwrap();
    assert_eq!(rebuilt.root_commitment(), source.root_commitment());
    assert_eq!(
        rebuilt.get(&TrieKey::from_stem_and_suffix(&stem(1, 1), 100)),
        Some(&value(2))
    );
    assert_eq!(rebuilt.get(&TrieKey::from_stem_and_suffix(&stem(1, 2), 7)), Some(&value(4)));
    assert_eq!(rebuilt.get(&TrieKey::from_stem_and_suffix(&stem(1, 2), 8)), None);
}

#[test]
fn content_is_held_against_its_key() {
    let mut source = Trie::new();
    source.insert(&TrieKey::from_stem_and_suffix(&stem(1, 1), 0), value(1));
    let bundle = VerkleContentValue::Node(PortalVerkleNode::BranchBundle(
        source.root().extract_bundle_node(),
    ));
    let mut trie = Trie::new();

    let wrong = VerkleContentKey::<WordCurve>::Bundle(WordPoint { bytes: [1; 32] });
    assert_eq!(
        process_content(&mut trie, &wrong, &bundle).map(|keys| keys.len()),
        Err(FetchError::WrongCommitment)
    );
    let other_kind = VerkleContentKey::<WordCurve>::BranchFragment(source.root_commitment());
    assert_eq!(
        process_content(&mut trie, &other_kind, &bundle).map(|keys| keys.len()),
        Err(FetchError::InvalidContent)
    );
    let right = VerkleContentKey::<WordCurve>::Bundle(source.root_commitment());
    let keys = process_content(&mut trie, &right, &bundle).unwrap();
    assert_eq!(keys.len(), 1);
    assert!(matches!(&keys[0], VerkleContentKey::BranchFragment(c)
        if Some(*c) == source.root().get_fragment_commitment(0)));

    let bad_index = VerkleContentValue::Node(PortalVerkleNode::LeafFragment(
        LeafFragmentNode::new(32, SparseVector::new([None; 8])),
    ));
    let leaf_key =
        VerkleContentKey::<WordCurve>::LeafFragment(portal_verkle::portal::content::LeafFragmentKey {
            stem: stem(1, 1),
            commitment: WordCurve::point_zero(),
        });
    assert_eq!(
        process_content(&mut trie, &leaf_key, &bad_index).map(|keys| keys.len()),
        Err(FetchError::InvalidContent)
    );
    assert_eq!(trie.root_commitment(), WordCurve::point_zero());
}

fn diff(stem: Stem, suffix: u8, new: u8) -> StemStateDiff {
    StemStateDiff {
        stem,
        suffix_diffs: vec![SuffixStateDiff {
            suffix,
            current_value: None,
            new_value: Some(value(new)),
        }],
    }
}

#[test]
fn blocks_come_in_order_and_must_match_their_root() {
    let genesis = GenesisConfig {
        alloc: vec![(
            Address::new([1; 20]),
            AccountAlloc { balance: U256::from_u64(9), nonce: None, code: None, storage: None },
        )],
    };
    let mut evm = VerkleEvm::<WordCurve>::new(&genesis);
    assert_eq!(evm.block(), 0);

    let mut expected = Trie::new();
    expected.update(&into_state_writes(&genesis.generate_state_diff::<WordCurve>())).unwrap();
    assert_eq!(evm.state_trie().root_commitment(), expected.root_commitment());

    let state_diff = vec![diff(stem(4, 4), 1, 1)];
    expected.update(&into_state_writes(&state_diff)).unwrap();
    let root = WordCurve::point_to_bytes(&expected.root_commitment());

    let early = evm.process_block(2, &root, &state_diff);
    assert_eq!(early.err(), Some(EvmError::UnexpectedBlock { expected: 1, actual: 2 }));
    assert_eq!(evm.block(), 0);

    let result = evm.process_block(1, &root, &state_diff).unwrap();
    assert_eq!(evm.block(), 1);
    assert_eq!(result.state_writes.len(), 1);
    assert!(result.new_branch_nodes.is_empty());
    assert_eq!(evm.state_trie().root_commitment(), expected.root_commitment());

    let again = evm.process_block(1, &root, &state_diff);
    assert_eq!(again.err(), Some(EvmError::UnexpectedBlock { expected: 2, actual: 1 }));

    // the diff says that the slot holds 9, and it holds 1
    let mut diverged = diff(stem(4, 4), 1, 2);
    diverged.suffix_diffs[0].current_value = Some(value(9));
    let refused = evm.process_block(2, &root, &vec![diverged]);
    assert_eq!(
        refused.err(),
        Some(EvmError::TrieError(VerkleTrieError::WrongOldValue {
            stem: stem(4, 4),
            index: 1,
            expected: Some(value(9)),
            actual: Some(value(1)),
        }))
    );
    assert_eq!(evm.block(), 1);
    assert_eq!(evm.state_trie().root_commitment(), expected.root_commitment());

    let next = vec![diff(stem(5, 5), 1, 1)];
    let wrong = evm.process_block(2, &root, &next);
    expected.update(&into_state_writes(&next)).unwrap();
    let actual = WordCurve::point_to_bytes(&expected.root_commitment());
    assert_eq!(wrong.err(), Some(EvmError::WrongStateRoot { expected: root, actual }));
    assert_eq!(evm.block(), 1);
}

#[test]
fn paths_of_the_test_network() {
    assert_eq!(beacon_slot_path(0), "data/verkle-devnet-6/beacon/slot.0.json");
    assert_eq!(beacon_slot_path(7), "data/verkle-devnet-6/beacon/slot.7.json");
    assert_eq!(beacon_slot_path(1234), "data/verkle-devnet-6/beacon/slot.1234.json");
    assert_eq!(
        beacon_slot_path(u64::MAX),
        "data/verkle-devnet-6/beacon/slot.18446744073709551615.json"
    );
    assert_eq!(genesis_path(), "data/verkle-devnet-6/genesis.json");
    assert_eq!(test_path("data/x.json"), "../data/x.json");
    assert_eq!(test_path(""), "../");
    assert_eq!(test_path("/tmp/x"), "/tmp/x");
}

#[test]
fn arguments_default_to_this_machine() {
    let args = Args::new(12);
    assert_eq!(args.slots, 12);
    assert_eq!(args.beacon_rpc_url, "http://localhost:9596/");
    assert_eq!(args.portal_rpc_url, "http://localhost:8545/");
}
