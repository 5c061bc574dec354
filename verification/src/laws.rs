//! What holds of every well-formed trie.
use vstd::prelude::*;
use crate::account::Address;
use crate::curve::{sum_seq, Curve};
use crate::genesis::{genesis_writes, grouped, AccountAlloc};
use crate::portal::branch_fragment::{lemma_fragment_matches_branch, BranchFragmentNode};
use crate::portal::node_wire::{
    branch_bundle_encoding, lemma_branch_bundle_shape, lemma_point_chunks_are_points,
};
use crate::portal::nodes::{optional_elems, BranchBundleNode};
use crate::portal::ssz::{lemma_decode_encoded, sparse_encoding};
use crate::portal::wire::point_chunks;
use crate::projection::{
    branch_fragment_elem, branch_fragment_elems, leaf_fragment_elems, lemma_branch_fragments_sum,
    lemma_leaf_fragments_sum,
};
use crate::witness::{state_diff_view, stem_diff_view, suffix_diff_view, StemStateDiff};
use crate::model::{
    leads_to_branch, lemma_branches_stay, lemma_lookup_after_write, lemma_write_idempotent,
    lemma_writes_commute, lookup, single_write, write_stem, NodeModel,
};
use crate::nodes::branch::{branch_elem, BranchNode};
use crate::nodes::leaf::{half_elem, leaf_elem, LeafNode};
use crate::nodes::Node;
use crate::trie::VerkleTrie;

verus! {

/// `target` is the branch that `path` leads to from the branch `from`.
pub open spec fn reaches_branch<C: Curve>(
    from: BranchNode<C>,
    path: Seq<u8>,
    target: BranchNode<C>,
) -> bool
    decreases path.len(),
{
    if path.len() == 0 {
        from == target
    } else {
        from.nodes()[path[0] as int] matches Node::Branch(next) && reaches_branch(
            *next,
            path.drop_first(),
            target,
        )
    }
}

/// `target` is the leaf in slot `slot` of the branch that `path` leads to from `from`.
pub open spec fn reaches_leaf<C: Curve>(
    from: BranchNode<C>,
    path: Seq<u8>,
    slot: u8,
    target: LeafNode<C>,
) -> bool
    decreases path.len(),
{
    if path.len() == 0 {
        from.nodes()[slot as int] matches Node::Leaf(leaf) && *leaf == target
    } else {
        from.nodes()[path[0] as int] matches Node::Branch(next) && reaches_leaf(
            *next,
            path.drop_first(),
            slot,
            target,
        )
    }
}

/// Every branch that can be reached in a well-formed trie commits to its
/// children: its commitment is the sum over `i` of
/// `G[i] · hash(commitment of child i)`.
pub proof fn lemma_branch_commitment_consistent<C: Curve>(
    trie: VerkleTrie<C>,
    path: Seq<u8>,
    branch: BranchNode<C>,
)
    requires
        trie.wf(),
        reaches_branch(trie.spec_root(), path, branch),
    ensures
        branch.commitment_elem() == branch_elem::<C>(branch.child_elems()),
        branch.spec_depth() == path.len(),
{
    lemma_reached_branch_inv(trie.spec_root(), path, branch);
}

proof fn lemma_reached_branch_inv<C: Curve>(
    from: BranchNode<C>,
    path: Seq<u8>,
    target: BranchNode<C>,
)
    requires
        from.inv(),
        reaches_branch(from, path, target),
    ensures
        target.inv(),
        target.spec_depth() == from.spec_depth() + path.len(),
    decreases path.len(),
{
    if path.len() > 0 {
        let index = path[0] as int;
        assert(from.children[index].inv_at(from.depth + 1));
        match from.children[index] {
            Node::Branch(next) => {
                lemma_reached_branch_inv(*next, path.drop_first(), target);
            },
            _ => {},
        }
    }
}

/// Each branch on the way of a stem down a well-formed branch keeps the
/// branch invariant.
pub proof fn lemma_branch_on_way_inv<C: Curve>(root: BranchNode<C>, stem: Seq<u8>, k: int)
    requires
        root.inv(),
        root.spec_depth() == 0,
        0 <= k < crate::trie::branches_on_way(root.model(), 0, stem),
    ensures
        crate::trie::branch_on_way(root, stem, k).inv(),
        crate::trie::branch_on_way(root, stem, k).spec_depth() == k,
        crate::trie::branches_on_way(root.model(), 0, stem) == k + crate::trie::branches_on_way(
            crate::trie::branch_on_way(root, stem, k).model(),
            k,
            stem,
        ),
    decreases k,
{
    if k > 0 {
        lemma_branch_on_way_inv(root, stem, k - 1);
        let above = crate::trie::branch_on_way(root, stem, k - 1);
        let index = stem[k - 1] as int;
        assert(above.children[index].inv_at(above.depth + 1));
        assert(above.model()[index] == above.children[index].model());
    }
}

/// Every leaf that can be reached in a well-formed trie commits to its
/// values: `c1` and `c2` are the sparse sums over the present slots of the
/// first and the second 128 suffixes, and the leaf's commitment is
/// `G[0] · 1 + G[1] · stem + G[2] · hash(c1) + G[3] · hash(c2)`.
pub proof fn lemma_leaf_commitment_consistent<C: Curve>(
    trie: VerkleTrie<C>,
    path: Seq<u8>,
    slot: u8,
    leaf: LeafNode<C>,
)
    requires
        trie.wf(),
        reaches_leaf(trie.spec_root(), path, slot, leaf),
    ensures
        leaf.c1_elem() == half_elem::<C>(leaf.model().values, 0),
        leaf.c2_elem() == half_elem::<C>(leaf.model().values, 1),
        leaf.commitment_elem() == leaf_elem::<C>(
            leaf.model().stem,
            leaf.c1_elem(),
            leaf.c2_elem(),
        ),
{
    lemma_reached_leaf_wf(trie.spec_root(), path, slot, leaf);
}

proof fn lemma_reached_leaf_wf<C: Curve>(
    from: BranchNode<C>,
    path: Seq<u8>,
    slot: u8,
    target: LeafNode<C>,
)
    requires
        from.inv(),
        reaches_leaf(from, path, slot, target),
    ensures
        target.wf(),
    decreases path.len(),
{
    if path.len() > 0 {
        let index = path[0] as int;
        assert(from.children[index].inv_at(from.depth + 1));
        match from.children[index] {
            Node::Branch(next) => {
                lemma_reached_leaf_wf(*next, path.drop_first(), slot, target);
            },
            _ => {},
        }
    } else {
        assert(from.children[slot as int].inv_at(from.depth + 1));
    }
}

/// Two nodes with consistent commitments that store the same have the same commitment.
pub proof fn lemma_node_commitment_determined<C: Curve>(a: Node<C>, b: Node<C>, depth: int)
    requires
        a.inv_at(depth),
        b.inv_at(depth),
        a.model() == b.model(),
    ensures
        a.commitment_elem() == b.commitment_elem(),
    decreases a,
{
    match a {
        Node::Empty => {},
        Node::Leaf(leaf) => {},
        Node::Branch(branch) => {
            match b {
                Node::Branch(other) => {
                    lemma_branch_commitment_determined(*branch, *other);
                },
                _ => {},
            }
        },
    }
}

/// Two branches with consistent commitments that store the same have the same commitment.
pub proof fn lemma_branch_commitment_determined<C: Curve>(a: BranchNode<C>, b: BranchNode<C>)
    requires
        a.inv(),
        b.inv(),
        a.spec_depth() == b.spec_depth(),
        a.model() == b.model(),
    ensures
        a.commitment_elem() == b.commitment_elem(),
    decreases a,
{
    assert forall|i: int| 0 <= i < 256 implies a.child_elems()[i] == b.child_elems()[i] by {
        assert(a.children[i].inv_at(a.depth + 1));
        assert(b.children[i].inv_at(b.depth + 1));
        assert(a.model()[i] == a.children[i].model());
        assert(b.model()[i] == b.children[i].model());
        lemma_node_commitment_determined(a.children[i], b.children[i], a.depth + 1);
    }
    assert(a.child_elems() =~= b.child_elems());
}

/// The root commitment of a well-formed trie depends only on what the trie stores.
pub proof fn lemma_root_commitment_determined<C: Curve>(a: VerkleTrie<C>, b: VerkleTrie<C>)
    requires
        a.wf(),
        b.wf(),
        a.model() == b.model(),
    ensures
        a.root_elem() == b.root_elem(),
{
    lemma_branch_commitment_determined(a.spec_root(), b.spec_root());
}

/// Inserting a key and value a second time leaves the root commitment as
/// it was after the first time.
pub proof fn lemma_insert_idempotent<C: Curve>(
    start: VerkleTrie<C>,
    once: VerkleTrie<C>,
    twice: VerkleTrie<C>,
    key: Seq<u8>,
    value: Seq<u8>,
)
    requires
        start.wf(),
        once.wf(),
        twice.wf(),
        key.len() == 32,
        once.model() == write_stem(
            start.model(),
            0,
            key.subrange(0, 31),
            single_write(key[31], value),
        ),
        twice.model() == write_stem(
            once.model(),
            0,
            key.subrange(0, 31),
            single_write(key[31], value),
        ),
    ensures
        twice.model() == once.model(),
        twice.root_elem() == once.root_elem(),
{
    let stem = key.subrange(0, 31);
    assert(stem.subrange(0, 0) =~= Seq::<u8>::empty());
    lemma_write_idempotent(start.model(), Seq::empty(), stem, single_write(key[31], value));
    lemma_root_commitment_determined(twice, once);
}

/// Writes to two different stems give the same root commitment in either order.
pub proof fn lemma_independent_writes_commute<C: Curve>(
    start: VerkleTrie<C>,
    first_then_second: VerkleTrie<C>,
    second_then_first: VerkleTrie<C>,
    first: Seq<u8>,
    first_writes: Map<u8, Seq<u8>>,
    second: Seq<u8>,
    second_writes: Map<u8, Seq<u8>>,
)
    requires
        start.wf(),
        first_then_second.wf(),
        second_then_first.wf(),
        first.len() == 31,
        second.len() == 31,
        first != second,
        crate::model::writes_wf(first_writes),
        crate::model::writes_wf(second_writes),
        first_then_second.model() == write_stem(
            write_stem(start.model(), 0, first, first_writes),
            0,
            second,
            second_writes,
        ),
        second_then_first.model() == write_stem(
            write_stem(start.model(), 0, second, second_writes),
            0,
            first,
            first_writes,
        ),
    ensures
        first_then_second.model() == second_then_first.model(),
        first_then_second.root_elem() == second_then_first.root_elem(),
{
    assert(first.subrange(0, 0) =~= Seq::<u8>::empty());
    assert(second.subrange(0, 0) =~= Seq::<u8>::empty());
    lemma_writes_commute(
        start.model(),
        Seq::empty(),
        first,
        first_writes,
        second,
        second_writes,
    );
    lemma_root_commitment_determined(first_then_second, second_then_first);
}

/// After a key was written, reading it gives the written value, and reading
/// any other key gives what it gave before.
pub proof fn lemma_get_after_insert<C: Curve>(
    before: VerkleTrie<C>,
    after: VerkleTrie<C>,
    key: Seq<u8>,
    value: Seq<u8>,
    other: Seq<u8>,
)
    requires
        before.wf(),
        key.len() == 32,
        other.len() == 32,
        after.model() == write_stem(
            before.model(),
            0,
            key.subrange(0, 31),
            single_write(key[31], value),
        ),
    ensures
        lookup(after.model(), other) == if other == key {
            Some(value)
        } else {
            lookup(before.model(), other)
        },
{
    let stem = key.subrange(0, 31);
    lemma_lookup_after_write(before.model(), stem, single_write(key[31], value), other);
    if other.subrange(0, 31) == stem && other[31] == key[31] {
        assert forall|k: int| 0 <= k < 32 implies other[k] == key[k] by {
            if k < 31 {
                assert(other.subrange(0, 31)[k] == stem[k]);
            }
        }
        assert(other =~= key);
    }
}

/// The 32 fragment commitments of a branch add up to its commitment.
pub proof fn lemma_bundle_is_sum_of_fragments<C: Curve>(branch: BranchNode<C>)
    requires
        branch.inv(),
    ensures
        sum_seq::<C>(branch_fragment_elems::<C>(branch.child_elems())) == branch.commitment_elem(),
{
    lemma_branch_fragments_sum::<C>(branch.child_elems());
}

/// A branch that is put together again from its 32 fragments, each of which
/// holds the commitments of its 8 children of the branch, has the
/// commitment of the branch: the commitments of the fragments are the
/// fragment commitments of the branch, and they add up to its commitment.
pub proof fn lemma_projection_round_trip<C: Curve>(
    branch: BranchNode<C>,
    fragments: Seq<BranchFragmentNode<C>>,
)
    requires
        branch.inv(),
        fragments.len() == 32,
        forall|f: int|
            0 <= f < 32 ==> (#[trigger] fragments[f]).wf() && fragments[f].spec_parent_index() == f,
        forall|f: int, k: int|
            0 <= f < 32 && 0 <= k < 8 ==> (#[trigger] fragments[f].child_elems()[k])
                == branch.child_elems()[8 * f + k],
    ensures
        forall|f: int|
            0 <= f < 32 ==> (#[trigger] fragments[f]).commitment_elem() == branch_fragment_elem::<
                C,
            >(branch.child_elems(), f),
        sum_seq::<C>(Seq::new(32, |f: int| fragments[f].commitment_elem()))
            == branch.commitment_elem(),
{
    assert forall|f: int| 0 <= f < 32 implies (#[trigger] fragments[f]).commitment_elem()
        == branch_fragment_elem::<C>(branch.child_elems(), f) by {
        assert forall|k: int| 0 <= k < 8 implies #[trigger] fragments[f].child_elems()[k]
            == branch.child_elems()[8 * fragments[f].spec_parent_index() + k] by {
            assert(fragments[f].child_elems()[k] == branch.child_elems()[8 * f + k]);
        }
        lemma_fragment_matches_branch::<C>(fragments[f], branch.child_elems());
    }
    assert(Seq::new(32, |f: int| fragments[f].commitment_elem()) =~= branch_fragment_elems::<C>(
        branch.child_elems(),
    ));
    lemma_branch_fragments_sum::<C>(branch.child_elems());
}

/// The first 16 fragment commitments of a leaf add up to its `c1`, the last
/// 16 to its `c2`; so the bundle of the leaf commits to what the leaf commits to.
pub proof fn lemma_leaf_bundle_is_sum_of_fragments<C: Curve>(leaf: LeafNode<C>)
    requires
        leaf.wf(),
    ensures
        leaf.commitment_elem() == leaf_elem::<C>(
            leaf.model().stem,
            sum_seq::<C>(leaf_fragment_elems::<C>(leaf.model().values).subrange(0, 16)),
            sum_seq::<C>(leaf_fragment_elems::<C>(leaf.model().values).subrange(16, 32)),
        ),
{
    let elems = leaf_fragment_elems::<C>(leaf.model().values);
    lemma_leaf_fragments_sum::<C>(leaf.model().values, 0);
    lemma_leaf_fragments_sum::<C>(leaf.model().values, 1);
    assert(elems.subrange(0, 16) =~= elems.subrange(16 * 0int, 16 * 0int + 16));
    assert(elems.subrange(16, 32) =~= elems.subrange(16 * 1int, 16 * 1int + 16));
}

/// The state diff of a genesis allocation depends on the allocation alone:
/// two diffs made of the same accounts in the same order hold the same
/// stems in the same order with the same writes in the same order.
pub proof fn lemma_state_diff_determined<C: Curve>(
    alloc: Seq<(Address, AccountAlloc)>,
    first: Seq<StemStateDiff>,
    second: Seq<StemStateDiff>,
)
    requires
        state_diff_view(first) == grouped(genesis_writes::<C>(alloc, alloc.len() as int)),
        state_diff_view(second) == grouped(genesis_writes::<C>(alloc, alloc.len() as int)),
    ensures
        first.len() == second.len(),
        forall|i: int|
            0 <= i < first.len() ==> (#[trigger] first[i]).stem@ == second[i].stem@
                && first[i].suffix_diffs@.len() == second[i].suffix_diffs@.len(),
        forall|i: int, j: int|
            0 <= i < first.len() && 0 <= j < first[i].suffix_diffs@.len() ==> suffix_diff_view(
                #[trigger] first[i].suffix_diffs@[j],
            ) == suffix_diff_view(second[i].suffix_diffs@[j]),
{
    let a = state_diff_view(first);
    let b = state_diff_view(second);
    assert(a == b);
    assert(a.len() == first.len() && b.len() == second.len());
    assert forall|i: int| 0 <= i < first.len() implies (#[trigger] first[i]).stem@
        == second[i].stem@ && first[i].suffix_diffs@.len() == second[i].suffix_diffs@.len() by {
        assert(a[i] == stem_diff_view(first[i]));
        assert(b[i] == stem_diff_view(second[i]));
        assert(a[i] == b[i]);
        assert(a[i].suffix_diffs.len() == first[i].suffix_diffs@.len());
        assert(b[i].suffix_diffs.len() == second[i].suffix_diffs@.len());
    }
    assert forall|i: int, j: int|
        0 <= i < first.len() && 0 <= j < first[i].suffix_diffs@.len() implies suffix_diff_view(
        #[trigger] first[i].suffix_diffs@[j],
    ) == suffix_diff_view(second[i].suffix_diffs@[j]) by {
        assert(a[i] == stem_diff_view(first[i]));
        assert(b[i] == stem_diff_view(second[i]));
        assert(a[i] == b[i]);
        assert(a[i].suffix_diffs[j] == suffix_diff_view(first[i].suffix_diffs@[j]));
        assert(b[i].suffix_diffs[j] == suffix_diff_view(second[i].suffix_diffs@[j]));
    }
}

/// Two sparse vectors of points with the same encoding stand for the same
/// elements, position by position.
pub proof fn lemma_same_encoding_same_elements<C: Curve>(
    a: Seq<Option<C::Point>>,
    b: Seq<Option<C::Point>>,
)
    requires
        a.len() == b.len(),
        a.len() % 8 == 0,
        sparse_encoding(point_chunks::<C>(a)) == sparse_encoding(point_chunks::<C>(b)),
    ensures
        optional_elems::<C>(a) == optional_elems::<C>(b),
{
    lemma_point_chunks_are_points::<C>(a);
    lemma_point_chunks_are_points::<C>(b);
    lemma_decode_encoded(point_chunks::<C>(a));
    lemma_decode_encoded(point_chunks::<C>(b));
    assert(point_chunks::<C>(a) == point_chunks::<C>(b));
    assert forall|i: int| 0 <= i < a.len() implies optional_elems::<C>(a)[i] == optional_elems::<
        C,
    >(b)[i] by {
        assert(point_chunks::<C>(a)[i] == point_chunks::<C>(b)[i]);
        match (a[i], b[i]) {
            (Some(p), Some(q)) => {
                C::lemma_encoding_injective(C::elem(&p), C::elem(&q));
            },
            _ => {},
        }
    }
    assert(optional_elems::<C>(a) =~= optional_elems::<C>(b));
}

/// A bundle of a branch that is decoded from the encoding of another
/// commits to what the other commits to.
pub proof fn lemma_bundle_wire_round_trip<C: Curve>(
    sent: BranchBundleNode<C>,
    received: BranchBundleNode<C>,
)
    requires
        branch_bundle_encoding::<C>(sent) == branch_bundle_encoding::<C>(received),
    ensures
        received.commitment_elem() == sent.commitment_elem(),
{
    lemma_branch_bundle_shape::<C>(sent);
    lemma_branch_bundle_shape::<C>(received);
    sent.spec_fragments().lemma_len();
    received.spec_fragments().lemma_len();
    let a = sent.spec_fragments().items();
    let b = received.spec_fragments().items();
    lemma_point_chunks_are_points::<C>(a);
    lemma_point_chunks_are_points::<C>(b);
    assert(point_chunks::<C>(a) == point_chunks::<C>(b));
    lemma_same_encoding_same_elements::<C>(a, b);
}

/// Branches are never taken away: where the trie had a branch before a
/// write, it has a branch after it.
pub proof fn lemma_write_keeps_branches<C: Curve>(
    before: VerkleTrie<C>,
    after: VerkleTrie<C>,
    stem: Seq<u8>,
    writes: Map<u8, Seq<u8>>,
    path: Seq<u8>,
)
    requires
        before.wf(),
        stem.len() == 31,
        after.model() == write_stem(before.model(), 0, stem, writes),
        leads_to_branch(before.model(), path),
    ensures
        leads_to_branch(after.model(), path),
{
    assert(stem.subrange(0, 0) =~= Seq::<u8>::empty());
    lemma_branches_stay(before.model(), Seq::empty(), stem, writes, path);
}

} // verus!
