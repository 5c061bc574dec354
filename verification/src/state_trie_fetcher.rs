//! Rebuilding a trie from the overlay network, one piece of content at a time.
//!
//! Fetching is the caller's part: it keeps a stack of content keys that
//! starts with the bundle of the state root, pops a key, fetches its value,
//! and hands both to [`process_content`], which checks the value against
//! the key, stores the values of leaf fragments in the trie, and says which
//! keys to fetch next.
use vstd::prelude::*;
use std::collections::HashMap;
use crate::curve::Curve;
use crate::model::{write_stem, NodeModel};
use crate::portal::content::{
    LeafFragmentKey, PortalVerkleNode, VerkleContentKey, VerkleContentValue,
};
use crate::portal::nodes::{BranchBundleNode, BranchFragmentNode, LeafBundleNode, LeafFragmentNode};
use crate::portal::sparse_vector::{enumerated_set_items, set_items};
use crate::primitives::{Stem, TrieValue};
use crate::state_write::{StemStateWrite, SuffixWrite};
use crate::trie::VerkleTrie;

verus! {

/// Why a piece of content was refused.
#[derive(Debug, Clone, Copy, PartialEq, Eq)]
pub enum FetchError {
    /// The value is not of the kind that its key asks for.
    InvalidContent,
    /// The node does not commit to what its key says.
    WrongCommitment,
}

/// The keys of the fragments of a branch bundle, in the order of the fragments.
pub open spec fn branch_fragment_keys<C: Curve>(fragments: Seq<Option<C::Point>>) -> Seq<
    VerkleContentKey<C>,
> {
    Seq::new(
        set_items(fragments).len(),
        |i: int| VerkleContentKey::BranchFragment(set_items(fragments)[i]),
    )
}

/// The keys of the fragments of a leaf bundle, in the order of the fragments.
pub open spec fn leaf_fragment_keys<C: Curve>(stem: Stem, fragments: Seq<Option<C::Point>>) -> Seq<
    VerkleContentKey<C>,
> {
    Seq::new(
        set_items(fragments).len(),
        |i: int|
            VerkleContentKey::LeafFragment(
                LeafFragmentKey { stem, commitment: set_items(fragments)[i] },
            ),
    )
}

/// The keys of the bundles of the children of a branch fragment, in the
/// order of the children.
pub open spec fn child_bundle_keys<C: Curve>(children: Seq<Option<C::Point>>) -> Seq<
    VerkleContentKey<C>,
> {
    Seq::new(
        set_items(children).len(),
        |i: int| VerkleContentKey::Bundle(set_items(children)[i]),
    )
}

/// The writes that store the values of a leaf fragment: value `k` of
/// fragment `f` goes to suffix `8f + k`.
pub open spec fn fragment_writes(fragment: LeafFragmentNode) -> Map<u8, Seq<u8>> {
    Map::new(
        |suffix: u8|
            8 * fragment.spec_fragment_index() <= suffix < 8 * fragment.spec_fragment_index() + 8
                && fragment.spec_children().items()[suffix - 8
                * fragment.spec_fragment_index()] is Some,
        |suffix: u8|
            fragment.spec_children().items()[suffix - 8 * fragment.spec_fragment_index()]->0@,
    )
}

/// What `process_content` does with `value` fetched for `key`, given the
/// trie `before`: the error, or the keys to fetch next and the trie after.
pub open spec fn content_outcome<C: Curve>(
    key: VerkleContentKey<C>,
    value: VerkleContentValue<C>,
    before: Seq<NodeModel>,
    r: Result<Vec<VerkleContentKey<C>>, FetchError>,
    after: Seq<NodeModel>,
) -> bool {
    match (key, value) {
        (
            VerkleContentKey::Bundle(commitment),
            VerkleContentValue::Node(PortalVerkleNode::BranchBundle(node)),
        ) => if node.commitment_elem() == C::elem(&commitment) {
            r matches Ok(keys) && keys@ == branch_fragment_keys::<C>(node.spec_fragments().items())
                && after == before
        } else {
            r == Err::<Vec<VerkleContentKey<C>>, FetchError>(FetchError::WrongCommitment)
                && after == before
        },
        (
            VerkleContentKey::Bundle(commitment),
            VerkleContentValue::Node(PortalVerkleNode::LeafBundle(node)),
        ) => if node.commitment_elem() == C::elem(&commitment) {
            r matches Ok(keys) && keys@ == leaf_fragment_keys::<C>(
                node.spec_stem(),
                node.spec_fragments().items(),
            ) && after == before
        } else {
            r == Err::<Vec<VerkleContentKey<C>>, FetchError>(FetchError::WrongCommitment)
                && after == before
        },
        (
            VerkleContentKey::BranchFragment(commitment),
            VerkleContentValue::Node(PortalVerkleNode::BranchFragment(node)),
        ) => if node.spec_fragment_index() >= 32 {
            r == Err::<Vec<VerkleContentKey<C>>, FetchError>(FetchError::InvalidContent)
                && after == before
        } else if node.commitment_elem() == C::elem(&commitment) {
            r matches Ok(keys) && keys@ == child_bundle_keys::<C>(node.spec_children().items())
                && after == before
        } else {
            r == Err::<Vec<VerkleContentKey<C>>, FetchError>(FetchError::WrongCommitment)
                && after == before
        },
        (
            VerkleContentKey::LeafFragment(leaf_fragment_key),
            VerkleContentValue::Node(PortalVerkleNode::LeafFragment(node)),
        ) => if node.spec_fragment_index() >= 32 {
            r == Err::<Vec<VerkleContentKey<C>>, FetchError>(FetchError::InvalidContent)
                && after == before
        } else if node.commitment_elem::<C>() == C::elem(&leaf_fragment_key.commitment) {
            r matches Ok(keys) && keys@.len() == 0 && after == write_stem(
                before,
                0,
                leaf_fragment_key.stem@,
                fragment_writes(node),
            )
        } else {
            r == Err::<Vec<VerkleContentKey<C>>, FetchError>(FetchError::WrongCommitment)
                && after == before
        },
        _ => r == Err::<Vec<VerkleContentKey<C>>, FetchError>(FetchError::InvalidContent) && after
            == before,
    }
}

/// Checks `value`, which was fetched for `key`, stores what it holds of the
/// state in `trie`, and returns the keys to fetch next, in the order in
/// which they go on the stack.
///
/// A bundle must commit to the commitment in its key; its fragments are
/// next. A fragment of a branch must commit to the commitment in its key;
/// the bundles of its children are next. A fragment of a leaf must commit
/// to the commitment in its key; its values go into the trie under the
/// stem in the key.
pub fn process_content<C: Curve>(
    trie: &mut VerkleTrie<C>,
    key: &VerkleContentKey<C>,
    value: &VerkleContentValue<C>,
) -> (r: Result<Vec<VerkleContentKey<C>>, FetchError>)
    requires
        old(trie).wf(),
    ensures
        final(trie).wf(),
        content_outcome::<C>(*key, *value, old(trie).model(), r, final(trie).model()),
{
    match value {
        VerkleContentValue::Node(PortalVerkleNode::BranchBundle(node)) => {
            match key {
                VerkleContentKey::Bundle(key_commitment) => {
                    if !node.verify(key_commitment) {
                        return Err(FetchError::WrongCommitment);
                    }
                    let commitments = node.fragments().iter_set_items();
                    let mut keys: Vec<VerkleContentKey<C>> = Vec::new();
                    let mut i: usize = 0;
                    while i < commitments.len()
                        invariant
                            i <= commitments@.len(),
                            keys@.len() == i,
                            forall|k: int|
                                0 <= k < i ==> keys@[k] == VerkleContentKey::<C>::BranchFragment(
                                    commitments@[k],
                                ),
                        decreases commitments@.len() - i,
                    {
                        keys.push(VerkleContentKey::BranchFragment(commitments[i]));
                        i += 1;
                    }
                    assert(keys@ =~= branch_fragment_keys::<C>(node.spec_fragments().items()));
                    Ok(keys)
                },
                _ => Err(FetchError::InvalidContent),
            }
        },
        VerkleContentValue::Node(PortalVerkleNode::LeafBundle(node)) => {
            match key {
                VerkleContentKey::Bundle(key_commitment) => {
                    if !node.verify(key_commitment) {
                        return Err(FetchError::WrongCommitment);
                    }
                    let commitments = node.fragments().iter_set_items();
                    let mut keys: Vec<VerkleContentKey<C>> = Vec::new();
                    let mut i: usize = 0;
                    while i < commitments.len()
                        invariant
                            i <= commitments@.len(),
                            keys@.len() == i,
                            forall|k: int|
                                0 <= k < i ==> keys@[k] == VerkleContentKey::<C>::LeafFragment(
                                    LeafFragmentKey {
                                        stem: node.spec_stem(),
                                        commitment: commitments@[k],
                                    },
                                ),
                        decreases commitments@.len() - i,
                    {
                        keys.push(
                            VerkleContentKey::LeafFragment(
                                LeafFragmentKey { stem: *node.stem(), commitment: commitments[i] },
                            ),
                        );
                        i += 1;
                    }
                    assert(keys@ =~= leaf_fragment_keys::<C>(
                        node.spec_stem(),
                        node.spec_fragments().items(),
                    ));
                    Ok(keys)
                },
                _ => Err(FetchError::InvalidContent),
            }
        },
        VerkleContentValue::Node(PortalVerkleNode::BranchFragment(node)) => {
            match key {
                VerkleContentKey::BranchFragment(key_commitment) => {
                    if node.fragment_index() >= 32 {
                        return Err(FetchError::InvalidContent);
                    }
                    if !node.verify(key_commitment) {
                        return Err(FetchError::WrongCommitment);
                    }
                    let commitments = node.children().iter_set_items();
                    let mut keys: Vec<VerkleContentKey<C>> = Vec::new();
                    let mut i: usize = 0;
                    while i < commitments.len()
                        invariant
                            i <= commitments@.len(),
                            keys@.len() == i,
                            forall|k: int|
                                0 <= k < i ==> keys@[k] == VerkleContentKey::<C>::Bundle(
                                    commitments@[k],
                                ),
                        decreases commitments@.len() - i,
                    {
                        keys.push(VerkleContentKey::Bundle(commitments[i]));
                        i += 1;
                    }
                    assert(keys@ =~= child_bundle_keys::<C>(node.spec_children().items()));
                    Ok(keys)
                },
                _ => Err(FetchError::InvalidContent),
            }
        },
        VerkleContentValue::Node(PortalVerkleNode::LeafFragment(node)) => {
            match key {
                VerkleContentKey::LeafFragment(leaf_fragment_key) => {
                    if node.fragment_index() >= 32 {
                        return Err(FetchError::InvalidContent);
                    }
                    if !node.verify::<C>(&leaf_fragment_key.commitment) {
                        return Err(FetchError::WrongCommitment);
                    }
                    let stem_state_write = leaf_fragment_write(&leaf_fragment_key.stem, node);
                    let _ = trie.apply_stem(&stem_state_write);
                    Ok(Vec::new())
                },
                _ => Err(FetchError::InvalidContent),
            }
        },
        _ => Err(FetchError::InvalidContent),
    }
}

/// The writes that store the values of a leaf fragment under `stem`. They
/// expect nothing of the old values.
pub fn leaf_fragment_write(stem: &Stem, node: &LeafFragmentNode) -> (r: StemStateWrite)
    requires
        node.spec_fragment_index() < 32,
    ensures
        r.stem == *stem,
        r.new_values() == fragment_writes(*node),
        r.expectations() == Map::<u8, Option<Seq<u8>>>::empty(),
{
    broadcast use vstd::std_specs::hash::group_hash_axioms;

    let start_index = (node.fragment_index() as usize) * 8;
    let mut writes: HashMap<u8, SuffixWrite> = HashMap::new();
    let mut child_index: usize = 0;
    proof {
        node.spec_children().lemma_len();
    }
    while child_index < 8
        invariant
            child_index <= 8,
            start_index == 8 * node.spec_fragment_index(),
            node.spec_fragment_index() < 32,
            node.spec_children().items().len() == 8,
            forall|suffix: u8|
                writes@.contains_key(suffix) <==> (start_index <= suffix < start_index
                    + child_index && node.spec_children().items()[suffix - start_index] is Some),
            forall|suffix: u8|
                writes@.contains_key(suffix) ==> (#[trigger] writes@[suffix]) == (SuffixWrite {
                    expected_old: None,
                    new_value: node.spec_children().items()[suffix - start_index]->0,
                }),
        decreases 8 - child_index,
    {
        match node.children().get(child_index) {
            Some(value) => {
                writes.insert((start_index + child_index) as u8, SuffixWrite::new(value));
            },
            None => {},
        }
        child_index += 1;
    }
    let r = StemStateWrite { stem: *stem, writes };
    proof {
        assert(r.new_values() =~= fragment_writes(*node));
        assert(r.expectations() =~= Map::<u8, Option<Seq<u8>>>::empty());
    }
    r
}

} // verus!
