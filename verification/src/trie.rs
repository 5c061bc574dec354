//! The trie: a root branch, and the driver that applies batched writes to it.
use vstd::prelude::*;
use crate::curve::Curve;
use crate::error::VerkleTrieError;
use crate::model::{
    created_branch, empty_branch, lookup, single_write, write_stem, NodeModel,
};
use crate::nodes::branch::{option_ref_view, stem_write_result, BranchNode};
use crate::nodes::leaf::LeafNode;
use crate::nodes::Node;
use crate::path::TriePath;
use crate::primitives::{key_stem, key_suffix, Stem, TrieKey, TrieValue};
use crate::state_write::{StateWrites, StemStateWrite};

verus! {

/// A Verkle trie. It owns all its nodes; its root is a branch at depth 0.
pub struct VerkleTrie<C: Curve> {
    pub(crate) root: BranchNode<C>,
}

/// The trie after the first `n` of `writes` went to it, in order.
pub open spec fn apply_all(root: Seq<NodeModel>, writes: Seq<StemStateWrite>, n: int) -> Seq<
    NodeModel,
>
    decreases n,
{
    if n <= 0 {
        root
    } else {
        write_stem(
            apply_all(root, writes, n - 1),
            0,
            writes[n - 1].stem@,
            writes[n - 1].new_values(),
        )
    }
}

/// The paths of the branches that the first `n` of `writes` create, in the
/// order in which they are created, each once.
pub open spec fn created_paths(root: Seq<NodeModel>, writes: Seq<StemStateWrite>, n: int) -> Seq<
    Seq<u8>,
>
    decreases n,
{
    if n <= 0 {
        Seq::empty()
    } else {
        let earlier = created_paths(root, writes, n - 1);
        match created_branch(apply_all(root, writes, n - 1), 0, writes[n - 1].stem@) {
            Some(path) => if earlier.contains(path) {
                earlier
            } else {
                earlier.push(path)
            },
            None => earlier,
        }
    }
}

/// Each of the first `n` of `writes` finds what it expects in the trie that
/// the writes before it have made.
pub open spec fn all_pass(root: Seq<NodeModel>, writes: Seq<StemStateWrite>, n: int) -> bool {
    forall|j: int|
        0 <= j < n ==> stem_write_result(
            Ok(()),
            #[trigger] apply_all(root, writes, j),
            0,
            &writes[j],
        )
}

/// The writes before number `failed` pass, that one fails with `e`, and
/// `after` is the trie that the writes before it have made.
pub open spec fn fails_at(
    root: Seq<NodeModel>,
    writes: Seq<StemStateWrite>,
    failed: int,
    e: VerkleTrieError,
    after: Seq<NodeModel>,
) -> bool {
    &&& 0 <= failed < writes.len()
    &&& all_pass(root, writes, failed)
    &&& stem_write_result(Err(e), apply_all(root, writes, failed), 0, &writes[failed])
    &&& after == apply_all(root, writes, failed)
}

/// The paths as byte strings.
pub open spec fn paths_view(paths: Seq<TriePath>) -> Seq<Seq<u8>> {
    Seq::new(paths.len(), |i: int| paths[i]@)
}

impl<C: Curve> VerkleTrie<C> {
    /// What the trie stores: the children of its root.
    pub open(crate) spec fn model(self) -> Seq<NodeModel> {
        self.root.model()
    }

    /// Every commitment in the trie is that of what is stored below it, every
    /// branch is at the depth of its path, and every leaf is on the path of its stem.
    pub open(crate) spec fn wf(self) -> bool {
        self.root.wf_at(Seq::empty())
    }

    /// The group element of the root commitment.
    pub open(crate) spec fn root_elem(self) -> C::Elem {
        self.root.commitment_elem()
    }

    /// The root branch.
    pub open(crate) spec fn spec_root(self) -> BranchNode<C> {
        self.root
    }

    /// The empty trie.
    pub fn new() -> (r: Self)
        ensures
            r.wf(),
            r.model() == empty_branch(),
            r.root_elem() == C::zero(),
    {
        let root = BranchNode::<C>::new(0);
        assert(root.wf_at(Seq::empty()));
        VerkleTrie { root }
    }

    /// The root branch.
    pub fn root(&self) -> (r: &BranchNode<C>)
        ensures
            *r == self.spec_root(),
    {
        &self.root
    }

    /// The commitment of the root.
    pub fn root_commitment(&self) -> (r: C::Point)
        ensures
            C::elem(&r) == self.root_elem(),
    {
        *self.root.commitment()
    }

    /// The image of the root commitment in the scalar field.
    pub fn root_hash(&mut self) -> (r: C::Scalar)
        requires
            old(self).wf(),
        ensures
            final(self).wf(),
            final(self).model() == old(self).model(),
            final(self).root_elem() == old(self).root_elem(),
            C::scalar_value(&r) == C::hash(old(self).root_elem()),
    {
        self.root.commitment_hash()
    }

    /// The value stored under `key`.
    pub fn get(&self, key: &TrieKey) -> (r: Option<&TrieValue>)
        requires
            self.wf(),
        ensures
            option_ref_view(r) == lookup(self.model(), key@),
    {
        self.root.get(key)
    }

    /// Stores `value` under `key`.
    pub fn insert(&mut self, key: &TrieKey, value: TrieValue)
        requires
            old(self).wf(),
        ensures
            final(self).wf(),
            final(self).model() == write_stem(
                old(self).model(),
                0,
                key_stem(key@),
                single_write(key_suffix(key@), value@),
            ),
    {
        assert(key_stem(key@).subrange(0, 0) =~= Seq::<u8>::empty());
        self.root.insert(key, value);
    }

    /// Stores the new value of every write of `state_write`, whatever the
    /// writes expect, and returns the path of the branch that this created, if any.
    pub fn apply_stem(&mut self, state_write: &StemStateWrite) -> (r: Option<TriePath>)
        requires
            old(self).wf(),
        ensures
            final(self).wf(),
            final(self).model() == write_stem(
                old(self).model(),
                0,
                state_write.stem@,
                state_write.new_values(),
            ),
            crate::path::option_path_view(r) == created_branch(
                old(self).model(),
                0,
                state_write.stem@,
            ),
    {
        assert(state_write.stem@.subrange(0, 0) =~= Seq::<u8>::empty());
        self.root.apply(state_write)
    }

    /// Applies the writes of one stem.
    pub fn update_stem(&mut self, state_write: &StemStateWrite) -> (r: Result<
        Option<TriePath>,
        VerkleTrieError,
    >)
        requires
            old(self).wf(),
        ensures
            final(self).wf(),
            stem_write_result(
                match r {
                    Ok(_) => Ok(()),
                    Err(e) => Err(e),
                },
                old(self).model(),
                0,
                state_write,
            ),
            match r {
                Ok(created) => {
                    &&& final(self).model() == write_stem(
                        old(self).model(),
                        0,
                        state_write.stem@,
                        state_write.new_values(),
                    )
                    &&& crate::path::option_path_view(created) == created_branch(
                        old(self).model(),
                        0,
                        state_write.stem@,
                    )
                },
                Err(_) => final(self).model() == old(self).model(),
            },
    {
        assert(state_write.stem@.subrange(0, 0) =~= Seq::<u8>::empty());
        self.root.update(state_write)
    }

    /// Applies every stem's writes in order, and returns the paths of the
    /// branches that this created.
    ///
    /// The writes of one stem are applied all or none. At the first stem
    /// whose writes fail, the update stops with that error; the writes of
    /// the stems before it stay applied.
    pub fn update(&mut self, state_writes: &StateWrites) -> (r: Result<
        Vec<TriePath>,
        VerkleTrieError,
    >)
        requires
            old(self).wf(),
        ensures
            final(self).wf(),
            match r {
                Ok(paths) => {
                    &&& all_pass(
                        old(self).model(),
                        state_writes.writes@,
                        state_writes.writes@.len() as int,
                    )
                    &&& final(self).model() == apply_all(
                        old(self).model(),
                        state_writes.writes@,
                        state_writes.writes@.len() as int,
                    )
                    &&& paths_view(paths@) == created_paths(
                        old(self).model(),
                        state_writes.writes@,
                        state_writes.writes@.len() as int,
                    )
                },
                Err(e) => exists|failed: int|
                    fails_at(
                        old(self).model(),
                        state_writes.writes@,
                        failed,
                        e,
                        final(self).model(),
                    ),
            },
    {
        let ghost start = self.model();
        let ghost all = state_writes.writes@;
        let mut paths: Vec<TriePath> = Vec::new();
        let mut i: usize = 0;
        while i < state_writes.writes.len()
            invariant
                i <= all.len(),
                all == state_writes.writes@,
                start == old(self).model(),
                self.wf(),
                self.model() == apply_all(start, all, i as int),
                paths_view(paths@) == created_paths(start, all, i as int),
                all_pass(start, all, i as int),
            decreases all.len() - i,
        {
            let state_write = &state_writes.writes[i];
            let ghost earlier = paths_view(paths@);
            match self.update_stem(state_write) {
                Err(e) => {
                    assert(fails_at(start, all, i as int, e, self.model()));
                    return Err(e);
                },
                Ok(created) => {
                    match created {
                        Some(path) => {
                            if !contains_path(&paths, &path) {
                                paths.push(path);
                                assert(paths_view(paths@) =~= earlier.push(path@));
                            }
                        },
                        None => {},
                    }
                },
            }
            i += 1;
        }
        Ok(paths)
    }
}

/// The branches from the root to the slot of a stem, and the leaf in that slot.
pub struct PathToLeaf<'a, C: Curve> {
    /// Each branch on the way, root first, with the index of the child that
    /// the way goes on through.
    pub trie_path: Vec<(&'a BranchNode<C>, u8)>,
    /// The leaf at the end of the way, if it is the leaf of the stem.
    pub leaf: Option<&'a LeafNode<C>>,
}

/// The number of branches on the way of `stem` down from a branch at `depth`,
/// that branch included.
pub open spec fn branches_on_way(children: Seq<NodeModel>, depth: int, stem: Seq<u8>) -> nat
    decreases 31 - depth,
{
    if depth < 0 || depth >= 31 {
        0
    } else {
        match children[stem[depth] as int] {
            NodeModel::Branch(below) => 1 + branches_on_way(below, depth + 1, stem),
            _ => 1,
        }
    }
}

/// What the way of `stem` down from a branch at `depth` ends in: the first
/// child on it that is no branch.
pub open spec fn end_of_way(children: Seq<NodeModel>, depth: int, stem: Seq<u8>) -> NodeModel
    decreases 31 - depth,
{
    if depth < 0 || depth >= 31 {
        NodeModel::Empty
    } else {
        match children[stem[depth] as int] {
            NodeModel::Branch(below) => end_of_way(below, depth + 1, stem),
            other => other,
        }
    }
}

/// Branch number `k` on the way of `stem` down from `root`; number 0 is `root`.
pub open spec fn branch_on_way<C: Curve>(root: BranchNode<C>, stem: Seq<u8>, k: int) -> BranchNode<
    C,
>
    decreases k,
{
    if k <= 0 {
        root
    } else {
        match branch_on_way(root, stem, k - 1).nodes()[stem[k - 1] as int] {
            Node::Branch(below) => *below,
            _ => root,
        }
    }
}

/// What `traverse_to_leaf` returns for `stem` in the trie with root `root`.
pub open spec fn traversal_result<C: Curve>(
    r: Result<PathToLeaf<'_, C>, VerkleTrieError>,
    root: BranchNode<C>,
    stem: Seq<u8>,
) -> bool {
    match r {
        Err(e) => e == VerkleTrieError::NodeNotFound && end_of_way(root.model(), 0, stem) is Empty,
        Ok(found) => {
            &&& end_of_way(root.model(), 0, stem) matches NodeModel::Leaf(at_end)
            &&& found.trie_path@.len() == branches_on_way(root.model(), 0, stem)
            &&& forall|k: int|
                0 <= k < found.trie_path@.len() ==> *(#[trigger] found.trie_path@[k]).0
                    == branch_on_way(root, stem, k) && found.trie_path@[k].1 == stem[k]
            &&& match found.leaf {
                Some(leaf) => at_end.stem == stem && leaf.model() == at_end && leaf.wf(),
                None => at_end.stem != stem,
            }
        },
    }
}

impl<C: Curve> VerkleTrie<C> {
    /// Walks from the root towards the leaf of `stem`.
    ///
    /// Returns the branches passed, each with the index taken, and the leaf
    /// reached if it is the leaf of `stem`. Fails with `NodeNotFound` if the
    /// walk ends in an empty slot.
    pub fn traverse_to_leaf<'a>(&'a self, stem: &Stem) -> (r: Result<
        PathToLeaf<'a, C>,
        VerkleTrieError,
    >)
        requires
            self.wf(),
        ensures
            traversal_result(r, self.spec_root(), stem@),
    {
        let mut trie_path: Vec<(&'a BranchNode<C>, u8)> = Vec::new();
        let mut node: &'a BranchNode<C> = &self.root;
        loop
            invariant
                node.inv(),
                node.spec_depth() == trie_path@.len(),
                *node == branch_on_way(self.root, stem@, trie_path@.len() as int),
                end_of_way(self.root.model(), 0, stem@) == end_of_way(
                    node.model(),
                    node.spec_depth(),
                    stem@,
                ),
                branches_on_way(self.root.model(), 0, stem@) == trie_path@.len()
                    + branches_on_way(node.model(), node.spec_depth(), stem@),
                forall|k: int|
                    0 <= k < trie_path@.len() ==> *(#[trigger] trie_path@[k]).0 == branch_on_way(
                        self.root,
                        stem@,
                        k,
                    ) && trie_path@[k].1 == stem@[k],
            decreases 31 - node.spec_depth(),
        {
            let index = stem.byte(node.depth);
            trie_path.push((node, index));
            proof {
                assert(node.model()[index as int] == node.nodes()[index as int].model());
            }
            match node.get_child(index as usize) {
                Node::Empty => {
                    return Err(VerkleTrieError::NodeNotFound);
                },
                Node::Leaf(leaf) => {
                    let found: Option<&'a LeafNode<C>> = if leaf.stem().equals(stem) {
                        Some(&**leaf)
                    } else {
                        None
                    };
                    return Ok(PathToLeaf { trie_path, leaf: found });
                },
                Node::Branch(below) => {
                    node = &**below;
                },
            }
        }
    }
}

impl<C: Curve> VerkleTrie<C> {
    /// The branch at `path`, if the trie has a branch there.
    pub fn branch_at(&self, path: &TriePath) -> (r: Option<&BranchNode<C>>)
        requires
            self.wf(),
        ensures
            match r {
                Some(branch) => crate::laws::reaches_branch(self.spec_root(), path@, *branch)
                    && branch.inv() && branch.spec_depth() == path@.len(),
                None => forall|branch: BranchNode<C>|
                    !crate::laws::reaches_branch(self.spec_root(), path@, branch),
            },
    {
        let mut node: &BranchNode<C> = &self.root;
        let mut i: usize = 0;
        proof {
            assert(path@.subrange(0, path@.len() as int) =~= path@);
        }
        while i < path.len()
            invariant
                i <= path@.len(),
                node.inv(),
                node.spec_depth() == i,
                forall|target: BranchNode<C>|
                    crate::laws::reaches_branch(self.root, path@, target)
                        == crate::laws::reaches_branch(
                        *node,
                        path@.subrange(i as int, path@.len() as int),
                        target,
                    ),
            decreases path@.len() - i,
        {
            let ghost rest = path@.subrange(i as int, path@.len() as int);
            proof {
                assert(rest[0] == path@[i as int]);
                assert(rest.drop_first() =~= path@.subrange(i + 1, path@.len() as int));
            }
            let index = path.as_slice()[i];
            match node.get_child(index as usize) {
                Node::Branch(below) => {
                    node = &**below;
                },
                _ => {
                    return None;
                },
            }
            i += 1;
        }
        proof {
            assert(path@.subrange(i as int, path@.len() as int) =~= Seq::<u8>::empty());
        }
        Some(node)
    }
}

/// Whether `paths` holds `path`.
pub fn contains_path(paths: &Vec<TriePath>, path: &TriePath) -> (r: bool)
    ensures
        r == paths_view(paths@).contains(path@),
{
    let mut i: usize = 0;
    while i < paths.len()
        invariant
            i <= paths@.len(),
            forall|k: int| 0 <= k < i ==> paths_view(paths@)[k] != path@,
        decreases paths@.len() - i,
    {
        if paths[i].equals(path) {
            assert(paths_view(paths@)[i as int] == path@);
            return true;
        }
        i += 1;
    }
    false
}

} // verus!
