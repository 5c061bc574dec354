//! What to gossip after a block: which bundles, and which fragments of each.
//!
//! Every branch on the way to a written stem gets its bundle gossiped, with
//! the fragment that the way goes through; a branch that the block created
//! gets all its fragments gossiped that commit to something. Every written
//! leaf gets its bundle gossiped, with the fragments of the written suffixes.
use vstd::prelude::*;
use crate::curve::Curve;
use crate::error::VerkleTrieError;
use crate::model::NodeModel;
use crate::nodes::branch::BranchNode;
use crate::path::{path_less, TriePath};
use crate::primitives::{
    bytes_less, lemma_bytes_less_total, lemma_bytes_less_transitive, Stem,
};
use crate::projection::branch_fragment_elem;
use crate::state_write::{StateWrites, StemStateWrite, SuffixWrite};
use crate::trie::{
    branch_on_way, branches_on_way, contains_path, end_of_way, paths_view, VerkleTrie,
};

verus! {

/// A branch to gossip: its path, and for each of its 32 fragments whether
/// to gossip it.
#[derive(Debug, Clone, PartialEq, Eq)]
pub struct BranchGossip {
    pub path: TriePath,
    pub fragments: [bool; 32],
}

/// A leaf to gossip: its stem, and for each of its 32 fragments whether to
/// gossip it.
#[derive(Debug, Clone, PartialEq, Eq)]
pub struct LeafGossip {
    pub stem: Stem,
    pub fragments: [bool; 32],
}

/// What to gossip: the branches, shorter paths first and paths of one
/// length in byte order, and then the leaves, in the byte order of their stems.
#[derive(Debug, Clone, PartialEq, Eq)]
pub struct GossipPlan {
    pub branches: Vec<BranchGossip>,
    pub leaves: Vec<LeafGossip>,
}

/// A node to gossip as plain values: its path or stem, and its fragments.
pub struct GossipEntry {
    pub place: Seq<u8>,
    pub fragments: Seq<bool>,
}

/// A branch to gossip as plain values.
pub open spec fn branch_view(branch: BranchGossip) -> GossipEntry {
    GossipEntry { place: branch.path@, fragments: branch.fragments@ }
}

/// A leaf to gossip as plain values.
pub open spec fn leaf_view(leaf: LeafGossip) -> GossipEntry {
    GossipEntry { place: leaf.stem@, fragments: leaf.fragments@ }
}

/// The branches to gossip as plain values.
pub open spec fn branches_view(branches: Seq<BranchGossip>) -> Seq<GossipEntry> {
    Seq::new(branches.len(), |i: int| branch_view(branches[i]))
}

/// The leaves to gossip as plain values.
pub open spec fn leaves_view(leaves: Seq<LeafGossip>) -> Seq<GossipEntry> {
    Seq::new(leaves.len(), |i: int| leaf_view(leaves[i]))
}

/// No fragment.
pub open spec fn no_fragments() -> Seq<bool> {
    Seq::new(32, |f: int| false)
}

/// Each fragment that is in one of the two.
pub open spec fn either(a: Seq<bool>, b: Seq<bool>) -> Seq<bool> {
    Seq::new(32, |f: int| a[f] || b[f])
}

/// The fragment `f` alone.
pub open spec fn one_fragment(f: int) -> Seq<bool> {
    Seq::new(32, |g: int| g == f)
}

/// The places come in order, each once.
pub open spec fn sorted_places(entries: Seq<GossipEntry>) -> bool {
    forall|i: int, j: int|
        0 <= i < j < entries.len() ==> path_less(
            (#[trigger] entries[i]).place,
            (#[trigger] entries[j]).place,
        )
}

/// The first position from `from` on whose place does not come before `place`.
pub open spec fn place_lower_bound(entries: Seq<GossipEntry>, place: Seq<u8>, from: int) -> int
    decreases entries.len() - from,
{
    if from < 0 || from >= entries.len() || !path_less(entries[from].place, place) {
        from
    } else {
        place_lower_bound(entries, place, from + 1)
    }
}

/// The entries with the fragments `more` added at `place`: to the entry of
/// the place, if there is one; else a new entry is made at the position of
/// the place in order, with the fragments `initial` and `more`.
pub open spec fn upsert(
    entries: Seq<GossipEntry>,
    place: Seq<u8>,
    initial: Seq<bool>,
    more: Seq<bool>,
) -> Seq<GossipEntry> {
    let at = place_lower_bound(entries, place, 0);
    if at < entries.len() && entries[at].place == place {
        entries.update(at, GossipEntry { place, fragments: either(entries[at].fragments, more) })
    } else {
        entries.insert(at, GossipEntry { place, fragments: either(initial, more) })
    }
}

/// If `a` comes before `b` and `b` before `c`, then `a` comes before `c`.
pub proof fn lemma_path_less_transitive(a: Seq<u8>, b: Seq<u8>, c: Seq<u8>)
    requires
        path_less(a, b),
        path_less(b, c),
    ensures
        path_less(a, c),
{
    if a.len() == b.len() && b.len() == c.len() {
        lemma_bytes_less_transitive(a, b, c);
    }
}

/// Of two different paths, one comes before the other.
pub proof fn lemma_path_less_total(a: Seq<u8>, b: Seq<u8>)
    requires
        a != b,
    ensures
        path_less(a, b) || path_less(b, a),
{
    if a.len() == b.len() {
        lemma_bytes_less_total(a, b);
    }
}

/// The lower bound is in range, the places before it come before `place`, and the place at it does not.
pub proof fn lemma_place_lower_bound(entries: Seq<GossipEntry>, place: Seq<u8>, from: int)
    requires
        0 <= from <= entries.len(),
    ensures
        from <= place_lower_bound(entries, place, from) <= entries.len(),
        forall|i: int|
            from <= i < place_lower_bound(entries, place, from) ==> path_less(
                (#[trigger] entries[i]).place,
                place,
            ),
        place_lower_bound(entries, place, from) < entries.len() ==> !path_less(
            entries[place_lower_bound(entries, place, from)].place,
            place,
        ),
    decreases entries.len() - from,
{
    if from < entries.len() && path_less(entries[from].place, place) {
        lemma_place_lower_bound(entries, place, from + 1);
    }
}

/// Adding fragments at a place keeps the places in order.
pub proof fn lemma_upsert_keeps_sorted(
    entries: Seq<GossipEntry>,
    place: Seq<u8>,
    initial: Seq<bool>,
    more: Seq<bool>,
)
    requires
        sorted_places(entries),
    ensures
        sorted_places(upsert(entries, place, initial, more)),
{
    let at = place_lower_bound(entries, place, 0);
    let after = upsert(entries, place, initial, more);
    lemma_place_lower_bound(entries, place, 0);
    if at < entries.len() && entries[at].place == place {
        assert forall|i: int, j: int| 0 <= i < j < after.len() implies path_less(
            (#[trigger] after[i]).place,
            (#[trigger] after[j]).place,
        ) by {
            assert(after[i].place == entries[i].place);
            assert(after[j].place == entries[j].place);
        }
    } else {
        assert forall|i: int, j: int| 0 <= i < j < after.len() implies path_less(
            (#[trigger] after[i]).place,
            (#[trigger] after[j]).place,
        ) by {
            if j < at {
                assert(after[i] == entries[i] && after[j] == entries[j]);
            } else if i > at {
                assert(after[i] == entries[i - 1] && after[j] == entries[j - 1]);
            } else if j == at {
                assert(after[i] == entries[i]);
            } else if i == at {
                assert(after[j] == entries[j - 1]);
                lemma_path_less_total(entries[at].place, place);
                if j - 1 > at {
                    lemma_path_less_transitive(place, entries[at].place, entries[j - 1].place);
                }
            } else {
                assert(after[i] == entries[i] && after[j] == entries[j - 1]);
            }
        }
    }
}

/// For each fragment of a branch, whether it commits to something.
pub open spec fn live_fragments<C: Curve>(branch: BranchNode<C>) -> Seq<bool> {
    Seq::new(32, |f: int| branch_fragment_elem::<C>(branch.child_elems(), f) != C::zero())
}

/// The fragments to start with for the branch at `path`: those that commit
/// to something if the branch is new, none if it is not.
pub open spec fn initial_fragments<C: Curve>(
    branch: BranchNode<C>,
    path: Seq<u8>,
    new_paths: Seq<Seq<u8>>,
) -> Seq<bool> {
    if new_paths.contains(path) {
        live_fragments::<C>(branch)
    } else {
        no_fragments()
    }
}

/// The branches to gossip for one stem: `entries` with the first `depth`
/// branches on the way of the stem added, each with the fragment that the
/// way goes through.
pub open spec fn stem_branches<C: Curve>(
    entries: Seq<GossipEntry>,
    root: BranchNode<C>,
    new_paths: Seq<Seq<u8>>,
    stem: Seq<u8>,
    depth: int,
) -> Seq<GossipEntry>
    decreases depth,
{
    if depth <= 0 {
        entries
    } else {
        let path = stem.subrange(0, depth - 1);
        upsert(
            stem_branches(entries, root, new_paths, stem, depth - 1),
            path,
            initial_fragments::<C>(branch_on_way(root, stem, depth - 1), path, new_paths),
            one_fragment(stem[depth - 1] as int / 8),
        )
    }
}

/// The branches to gossip for the first `n` stems written.
pub open spec fn planned_branches<C: Curve>(
    root: BranchNode<C>,
    new_paths: Seq<Seq<u8>>,
    writes: Seq<StemStateWrite>,
    n: int,
) -> Seq<GossipEntry>
    decreases n,
{
    if n <= 0 {
        Seq::empty()
    } else {
        stem_branches(
            planned_branches(root, new_paths, writes, n - 1),
            root,
            new_paths,
            writes[n - 1].stem@,
            branches_on_way(root.model(), 0, writes[n - 1].stem@) as int,
        )
    }
}

/// The fragments of a leaf that the writes touch: fragment `f` covers the
/// suffixes `8f .. 8f + 8`.
pub open spec fn written_fragments(writes: Map<u8, SuffixWrite>) -> Seq<bool> {
    Seq::new(
        32,
        |f: int| exists|suffix: u8| #[trigger] writes.contains_key(suffix) && suffix as int / 8 == f,
    )
}

/// The leaves to gossip for the first `n` stems written.
pub open spec fn planned_leaves(writes: Seq<StemStateWrite>, n: int) -> Seq<GossipEntry>
    decreases n,
{
    if n <= 0 {
        Seq::empty()
    } else {
        upsert(
            planned_leaves(writes, n - 1),
            writes[n - 1].stem@,
            no_fragments(),
            written_fragments(writes[n - 1].writes@),
        )
    }
}

/// Whether the way of `stem` ends in the leaf of `stem`.
pub open spec fn leaf_found(root: Seq<NodeModel>, stem: Seq<u8>) -> bool {
    end_of_way(root, 0, stem) matches NodeModel::Leaf(leaf) && leaf.stem == stem
}

/// Adds fragment `fragment` to the entry for the branch at `path`, making
/// the entry with the fragments `initial` if there is none.
fn upsert_branch(
    branches: &mut Vec<BranchGossip>,
    path: TriePath,
    initial: [bool; 32],
    fragment: usize,
)
    requires
        sorted_places(branches_view(old(branches)@)),
        fragment < 32,
    ensures
        sorted_places(branches_view(final(branches)@)),
        branches_view(final(branches)@) == upsert(
            branches_view(old(branches)@),
            path@,
            initial@,
            one_fragment(fragment as int),
        ),
{
    let ghost before = branches_view(branches@);
    let mut at: usize = 0;
    while at < branches.len() && branches[at].path.less_than(&path)
        invariant
            at <= branches@.len(),
            branches@ == old(branches)@,
            before == branches_view(branches@),
            place_lower_bound(before, path@, 0) == place_lower_bound(before, path@, at as int),
        decreases branches@.len() - at,
    {
        assert(before[at as int].place == branches@[at as int].path@);
        at += 1;
    }
    proof {
        if at < branches@.len() {
            assert(before[at as int].place == branches@[at as int].path@);
        }
        lemma_upsert_keeps_sorted(before, path@, initial@, one_fragment(fragment as int));
    }
    if at < branches.len() && branches[at].path.equals(&path) {
        let ghost old_fragments = branches@[at as int].fragments@;
        branches[at].fragments[fragment] = true;
        proof {
            assert(branches@[at as int].fragments@ =~= either(
                old_fragments,
                one_fragment(fragment as int),
            ));
            assert forall|i: int| 0 <= i < branches@.len() && i != at implies branches_view(
                branches@,
            )[i] == before[i] by {
                assert(branches@[i] == old(branches)@[i]);
            }
            assert(branches_view(branches@) =~= upsert(
                before,
                path@,
                initial@,
                one_fragment(fragment as int),
            ));
        }
    } else {
        let mut fragments = initial;
        fragments[fragment] = true;
        assert(fragments@ =~= either(initial@, one_fragment(fragment as int)));
        branches.insert(at, BranchGossip { path, fragments });
        assert(branches_view(branches@) =~= upsert(
            before,
            path@,
            initial@,
            one_fragment(fragment as int),
        ));
    }
}

/// Adds the fragments `more` to the entry for the leaf of `stem`, making
/// the entry if there is none.
fn upsert_leaf(leaves: &mut Vec<LeafGossip>, stem: Stem, more: [bool; 32])
    requires
        sorted_places(leaves_view(old(leaves)@)),
    ensures
        sorted_places(leaves_view(final(leaves)@)),
        leaves_view(final(leaves)@) == upsert(
            leaves_view(old(leaves)@),
            stem@,
            no_fragments(),
            more@,
        ),
{
    let ghost before = leaves_view(leaves@);
    let mut at: usize = 0;
    proof {
        stem.lemma_len();
    }
    while at < leaves.len() && leaves[at].stem.less_than(&stem)
        invariant
            at <= leaves@.len(),
            leaves@ == old(leaves)@,
            before == leaves_view(leaves@),
            stem@.len() == 31,
            place_lower_bound(before, stem@, 0) == place_lower_bound(before, stem@, at as int),
        decreases leaves@.len() - at,
    {
        proof {
            leaves@[at as int].stem.lemma_len();
            assert(before[at as int].place == leaves@[at as int].stem@);
        }
        at += 1;
    }
    proof {
        if at < leaves@.len() {
            leaves@[at as int].stem.lemma_len();
            assert(before[at as int].place == leaves@[at as int].stem@);
        }
        lemma_upsert_keeps_sorted(before, stem@, no_fragments(), more@);
    }
    if at < leaves.len() && leaves[at].stem.equals(&stem) {
        let ghost old_fragments = leaves@[at as int].fragments@;
        let mut merged = leaves[at].fragments;
        let mut f: usize = 0;
        while f < 32
            invariant
                f <= 32,
                old_fragments.len() == 32,
                forall|g: int|
                    0 <= g < f ==> #[trigger] merged@[g] == (old_fragments[g] || more@[g]),
                forall|g: int| f <= g < 32 ==> #[trigger] merged@[g] == old_fragments[g],
            decreases 32 - f,
        {
            let both = merged[f] || more[f];
            merged[f] = both;
            f += 1;
        }
        leaves[at].fragments = merged;
        proof {
            assert(leaves@[at as int].fragments@ =~= either(old_fragments, more@));
            assert forall|i: int| 0 <= i < leaves@.len() && i != at implies leaves_view(
                leaves@,
            )[i] == before[i] by {
                assert(leaves@[i] == old(leaves)@[i]);
            }
            assert(leaves_view(leaves@) =~= upsert(before, stem@, no_fragments(), more@));
        }
    } else {
        assert(more@ =~= either(no_fragments(), more@));
        leaves.insert(at, LeafGossip { stem, fragments: more });
        assert(leaves_view(leaves@) =~= upsert(before, stem@, no_fragments(), more@));
    }
}

/// For each fragment of `branch`, whether it commits to something.
pub fn branch_live_fragments<C: Curve>(branch: &BranchNode<C>) -> (r: [bool; 32])
    requires
        branch.inv(),
    ensures
        r@ == live_fragments::<C>(*branch),
{
    let mut live = [false; 32];
    let mut f: usize = 0;
    while f < 32
        invariant
            f <= 32,
            branch.inv(),
            forall|g: int| 0 <= g < f ==> live[g] == live_fragments::<C>(*branch)[g],
        decreases 32 - f,
    {
        live[f] = branch.get_fragment_commitment(f).is_some();
        f += 1;
    }
    assert(live@ =~= live_fragments::<C>(*branch));
    live
}

/// The fragments of a leaf that the writes of `state_write` touch.
pub fn touched_fragments(state_write: &StemStateWrite) -> (r: [bool; 32])
    ensures
        r@ == written_fragments(state_write.writes@),
{
    let mut touched = [false; 32];
    let mut suffix: usize = 0;
    let ghost writes = state_write.writes@;
    while suffix < 256
        invariant
            suffix <= 256,
            writes == state_write.writes@,
            forall|f: int|
                0 <= f < 32 ==> touched[f] == (exists|s: u8|
                    #[trigger] writes.contains_key(s) && s < suffix && s as int / 8 == f),
        decreases 256 - suffix,
    {
        let ghost before = touched@;
        let present = state_write.write_at(suffix as u8).is_some();
        if present {
            touched[suffix / 8] = true;
        }
        proof {
            assert forall|f: int| 0 <= f < 32 implies touched[f] == (exists|s: u8|
                #[trigger] writes.contains_key(s) && s < suffix + 1 && s as int / 8 == f) by {
                let now = exists|s: u8|
                    #[trigger] writes.contains_key(s) && s < suffix + 1 && s as int / 8 == f;
                let earlier = exists|s: u8|
                    #[trigger] writes.contains_key(s) && s < suffix && s as int / 8 == f;
                if present && suffix as int / 8 == f {
                    assert(writes.contains_key(suffix as u8) && (suffix as u8) < suffix + 1);
                } else if now {
                    let s = choose|s: u8|
                        #[trigger] writes.contains_key(s) && s < suffix + 1 && s as int / 8 == f;
                    assert(s != suffix);
                    assert(writes.contains_key(s) && s < suffix);
                }
                if earlier {
                    let s = choose|s: u8|
                        #[trigger] writes.contains_key(s) && s < suffix && s as int / 8 == f;
                    assert(writes.contains_key(s) && s < suffix + 1);
                }
            }
        }
        suffix += 1;
    }
    proof {
        assert forall|f: int| 0 <= f < 32 implies touched[f] == written_fragments(writes)[f] by {
            if written_fragments(writes)[f] {
                let s = choose|s: u8| #[trigger] writes.contains_key(s) && s as int / 8 == f;
                assert(writes.contains_key(s) && s < 256);
            }
        }
        assert(touched@ =~= written_fragments(writes));
    }
    touched
}

/// What to gossip after the writes `state_writes` went to `trie` and
/// created the branches at `new_branch_nodes`.
///
/// Fails with `NodeNotFound` if the trie has no leaf for a written stem.
pub fn plan_gossip<C: Curve>(
    trie: &VerkleTrie<C>,
    state_writes: &StateWrites,
    new_branch_nodes: &Vec<TriePath>,
) -> (r: Result<GossipPlan, VerkleTrieError>)
    requires
        trie.wf(),
    ensures
        match r {
            Ok(plan) => {
                &&& forall|j: int|
                    0 <= j < state_writes.writes@.len() ==> leaf_found(
                        trie.model(),
                        (#[trigger] state_writes.writes@[j]).stem@,
                    )
                &&& branches_view(plan.branches@) == planned_branches::<C>(
                    trie.spec_root(),
                    paths_view(new_branch_nodes@),
                    state_writes.writes@,
                    state_writes.writes@.len() as int,
                )
                &&& leaves_view(plan.leaves@) == planned_leaves(
                    state_writes.writes@,
                    state_writes.writes@.len() as int,
                )
                &&& sorted_places(branches_view(plan.branches@))
                &&& sorted_places(leaves_view(plan.leaves@))
            },
            Err(e) => e == VerkleTrieError::NodeNotFound && exists|j: int|
                0 <= j < state_writes.writes@.len() && !leaf_found(
                    trie.model(),
                    (#[trigger] state_writes.writes@[j]).stem@,
                ),
        },
{
    let mut branches: Vec<BranchGossip> = Vec::new();
    let mut leaves: Vec<LeafGossip> = Vec::new();
    let ghost new_paths = paths_view(new_branch_nodes@);
    let ghost all = state_writes.writes@;
    let ghost root = trie.spec_root();
    let mut i: usize = 0;
    proof {
        assert(branches_view(branches@) =~= planned_branches::<C>(root, new_paths, all, 0));
        assert(leaves_view(leaves@) =~= planned_leaves(all, 0));
    }
    while i < state_writes.writes.len()
        invariant
            i <= all.len(),
            all == state_writes.writes@,
            root == trie.spec_root(),
            new_paths == paths_view(new_branch_nodes@),
            trie.wf(),
            forall|j: int| 0 <= j < i ==> leaf_found(trie.model(), (#[trigger] all[j]).stem@),
            branches_view(branches@) == planned_branches::<C>(root, new_paths, all, i as int),
            leaves_view(leaves@) == planned_leaves(all, i as int),
            sorted_places(branches_view(branches@)),
            sorted_places(leaves_view(leaves@)),
        decreases all.len() - i,
    {
        let stem_state_write = &state_writes.writes[i];
        let stem = &stem_state_write.stem;
        let path_to_leaf = match trie.traverse_to_leaf(stem) {
            Ok(path_to_leaf) => path_to_leaf,
            Err(e) => {
                assert(!leaf_found(trie.model(), all[i as int].stem@));
                return Err(e);
            },
        };
        if path_to_leaf.leaf.is_none() {
            assert(!leaf_found(trie.model(), all[i as int].stem@));
            return Err(VerkleTrieError::NodeNotFound);
        }
        let ghost earlier = branches_view(branches@);
        let ghost steps = branches_on_way(root.model(), 0, stem@) as int;
        proof {
            lemma_way_is_short(root.model(), 0, stem@);
        }
        let mut depth: usize = 0;
        while depth < path_to_leaf.trie_path.len()
            invariant
                depth <= path_to_leaf.trie_path@.len(),
                path_to_leaf.trie_path@.len() == steps,
                steps == branches_on_way(root.model(), 0, stem@),
                steps <= 31,
                root == trie.spec_root(),
                trie.wf(),
                new_paths == paths_view(new_branch_nodes@),
                forall|k: int|
                    0 <= k < path_to_leaf.trie_path@.len() ==> *(
                    #[trigger] path_to_leaf.trie_path@[k]).0 == branch_on_way(root, stem@, k)
                        && path_to_leaf.trie_path@[k].1 == stem@[k],
                branches_view(branches@) == stem_branches::<C>(
                    earlier,
                    root,
                    new_paths,
                    stem@,
                    depth as int,
                ),
                sorted_places(branches_view(branches@)),
            decreases path_to_leaf.trie_path@.len() - depth,
        {
            let trie_path = TriePath::from_stem_prefix(stem, depth);
            let branch = path_to_leaf.trie_path[depth].0;
            let child_index = path_to_leaf.trie_path[depth].1;
            proof {
                crate::laws::lemma_branch_on_way_inv(root, stem@, depth as int);
            }
            let initial = if contains_path(new_branch_nodes, &trie_path) {
                branch_live_fragments::<C>(branch)
            } else {
                let none = [false; 32];
                assert(none@ =~= no_fragments());
                none
            };
            upsert_branch(&mut branches, trie_path, initial, (child_index / 8) as usize);
            depth += 1;
        }
        let touched = touched_fragments(stem_state_write);
        upsert_leaf(&mut leaves, *stem, touched);
        i += 1;
    }
    Ok(GossipPlan { branches, leaves })
}

/// There are at most 31 branches on a way.
pub proof fn lemma_way_is_short(children: Seq<NodeModel>, depth: int, stem: Seq<u8>)
    requires
        0 <= depth,
    ensures
        depth + branches_on_way(children, depth, stem) <= 31 || branches_on_way(
            children,
            depth,
            stem,
        ) == 0,
    decreases 31 - depth,
{
    if depth < 31 {
        match children[stem[depth] as int] {
            NodeModel::Branch(below) => {
                lemma_way_is_short(below, depth + 1, stem);
            },
            _ => {},
        }
    }
}

/// Whether the entries have one for `place`.
pub open spec fn has_place(entries: Seq<GossipEntry>, place: Seq<u8>) -> bool {
    exists|i: int| 0 <= i < entries.len() && (#[trigger] entries[i]).place == place
}

/// After fragments were added at `place`, the entries have one for `place`
/// and for every place that they had one for before, and for no other.
pub proof fn lemma_upsert_places(
    entries: Seq<GossipEntry>,
    place: Seq<u8>,
    initial: Seq<bool>,
    more: Seq<bool>,
    other: Seq<u8>,
)
    ensures
        has_place(upsert(entries, place, initial, more), other) <==> (other == place || has_place(
            entries,
            other,
        )),
{
    let at = place_lower_bound(entries, place, 0);
    let after = upsert(entries, place, initial, more);
    lemma_place_lower_bound(entries, place, 0);
    if at < entries.len() && entries[at].place == place {
        assert(after[at].place == place);
        if has_place(entries, other) {
            let i = choose|i: int| 0 <= i < entries.len() && (#[trigger] entries[i]).place == other;
            assert(after[i].place == other);
        }
        if has_place(after, other) {
            let i = choose|i: int| 0 <= i < after.len() && (#[trigger] after[i]).place == other;
            assert(entries[i].place == other);
        }
    } else {
        assert(after[at].place == place);
        if has_place(entries, other) {
            let i = choose|i: int| 0 <= i < entries.len() && (#[trigger] entries[i]).place == other;
            if i < at {
                assert(after[i].place == other);
            } else {
                assert(after[i + 1].place == other);
            }
        }
        if has_place(after, other) && other != place {
            let i = choose|i: int| 0 <= i < after.len() && (#[trigger] after[i]).place == other;
            if i < at {
                assert(entries[i].place == other);
            } else {
                assert(entries[i - 1].place == other);
            }
        }
    }
}

/// The branches planned for one stem are those planned before and the
/// branches at the first `depth` prefixes of the stem.
pub proof fn lemma_stem_branches_places<C: Curve>(
    entries: Seq<GossipEntry>,
    root: BranchNode<C>,
    new_paths: Seq<Seq<u8>>,
    stem: Seq<u8>,
    depth: int,
    other: Seq<u8>,
)
    ensures
        has_place(stem_branches(entries, root, new_paths, stem, depth), other) <==> (has_place(
            entries,
            other,
        ) || exists|k: int| 0 <= k < depth && other == #[trigger] stem.subrange(0, k)),
    decreases depth,
{
    if depth > 0 {
        let fewer = stem_branches(entries, root, new_paths, stem, depth - 1);
        let path = stem.subrange(0, depth - 1);
        lemma_stem_branches_places(entries, root, new_paths, stem, depth - 1, other);
        lemma_upsert_places(
            fewer,
            path,
            initial_fragments::<C>(branch_on_way(root, stem, depth - 1), path, new_paths),
            one_fragment(stem[depth - 1] as int / 8),
            other,
        );
        if exists|k: int| 0 <= k < depth && other == #[trigger] stem.subrange(0, k) {
            let k = choose|k: int| 0 <= k < depth && other == #[trigger] stem.subrange(0, k);
            if k < depth - 1 {
                assert(0 <= k < depth - 1 && other == stem.subrange(0, k));
            }
        }
        if other == path {
            assert(0 <= depth - 1 < depth && other == stem.subrange(0, depth - 1));
        }
        if exists|k: int| 0 <= k < depth - 1 && other == #[trigger] stem.subrange(0, k) {
            let k = choose|k: int| 0 <= k < depth - 1 && other == #[trigger] stem.subrange(0, k);
            assert(0 <= k < depth && other == stem.subrange(0, k));
        }
    }
}

/// Whether `path` is that of a branch on the way of one of the first `n`
/// stems written.
pub open spec fn on_a_way(
    root: Seq<NodeModel>,
    writes: Seq<StemStateWrite>,
    n: int,
    path: Seq<u8>,
) -> bool {
    exists|j: int, k: int|
        0 <= j < n && 0 <= k < branches_on_way(root, 0, writes[j].stem@) && path
            == #[trigger] writes[j].stem@.subrange(0, k)
}

/// A branch is planned exactly if it is on the way to a written stem.
pub proof fn lemma_planned_branches_places<C: Curve>(
    root: BranchNode<C>,
    new_paths: Seq<Seq<u8>>,
    writes: Seq<StemStateWrite>,
    n: int,
    path: Seq<u8>,
)
    ensures
        has_place(planned_branches(root, new_paths, writes, n), path) <==> on_a_way(
            root.model(),
            writes,
            n,
            path,
        ),
    decreases n,
{
    if n > 0 {
        let earlier = planned_branches(root, new_paths, writes, n - 1);
        let stem = writes[n - 1].stem@;
        let steps = branches_on_way(root.model(), 0, stem) as int;
        lemma_planned_branches_places(root, new_paths, writes, n - 1, path);
        lemma_stem_branches_places(earlier, root, new_paths, stem, steps, path);
        if on_a_way(root.model(), writes, n, path) {
            let (j, k) = choose|j: int, k: int|
                0 <= j < n && 0 <= k < branches_on_way(root.model(), 0, writes[j].stem@) && path
                    == #[trigger] writes[j].stem@.subrange(0, k);
            if j < n - 1 {
                assert(0 <= j < n - 1 && 0 <= k < branches_on_way(
                    root.model(),
                    0,
                    writes[j].stem@,
                ) && path == writes[j].stem@.subrange(0, k));
            } else {
                assert(0 <= k < steps && path == stem.subrange(0, k));
            }
        }
        if on_a_way(root.model(), writes, n - 1, path) {
            let (j, k) = choose|j: int, k: int|
                0 <= j < n - 1 && 0 <= k < branches_on_way(root.model(), 0, writes[j].stem@)
                    && path == #[trigger] writes[j].stem@.subrange(0, k);
            assert(0 <= j < n && 0 <= k < branches_on_way(root.model(), 0, writes[j].stem@)
                && path == writes[j].stem@.subrange(0, k));
        }
        if exists|k: int| 0 <= k < steps && path == #[trigger] stem.subrange(0, k) {
            let k = choose|k: int| 0 <= k < steps && path == #[trigger] stem.subrange(0, k);
            assert(0 <= n - 1 < n && 0 <= k < branches_on_way(
                root.model(),
                0,
                writes[n - 1].stem@,
            ) && path == writes[n - 1].stem@.subrange(0, k));
        }
    } else {
        assert(planned_branches(root, new_paths, writes, n).len() == 0);
    }
}

/// A leaf is planned exactly if its stem is written.
pub proof fn lemma_planned_leaves_places(writes: Seq<StemStateWrite>, n: int, stem: Seq<u8>)
    ensures
        has_place(planned_leaves(writes, n), stem) <==> exists|j: int|
            0 <= j < n && (#[trigger] writes[j]).stem@ == stem,
    decreases n,
{
    if n > 0 {
        lemma_planned_leaves_places(writes, n - 1, stem);
        lemma_upsert_places(
            planned_leaves(writes, n - 1),
            writes[n - 1].stem@,
            no_fragments(),
            written_fragments(writes[n - 1].writes@),
            stem,
        );
        if exists|j: int| 0 <= j < n && (#[trigger] writes[j]).stem@ == stem {
            let j = choose|j: int| 0 <= j < n && (#[trigger] writes[j]).stem@ == stem;
            if j < n - 1 {
                assert(0 <= j < n - 1 && writes[j].stem@ == stem);
            }
        }
        if exists|j: int| 0 <= j < n - 1 && (#[trigger] writes[j]).stem@ == stem {
            let j = choose|j: int| 0 <= j < n - 1 && (#[trigger] writes[j]).stem@ == stem;
            assert(0 <= j < n && writes[j].stem@ == stem);
        }
        if writes[n - 1].stem@ == stem {
            assert(0 <= n - 1 < n && writes[n - 1].stem@ == stem);
        }
    } else {
        assert(planned_leaves(writes, n).len() == 0);
    }
}

} // verus!
