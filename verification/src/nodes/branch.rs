//! The branch node: 256 children, and the commitment to their commitments.
use vstd::prelude::*;
use crate::commitment::Commitment;
use crate::curve::{
    field_sub, lemma_basis_mul_delta, lemma_sum_seq_update, lemma_sum_seq_zeros, sum_seq, Curve,
};
use crate::error::VerkleTrieError;
use crate::model::{
    created_branch, empty_branch, empty_values, lemma_split_has_room, lemma_split_leaf_wf,
    lemma_stem_extends_path, lemma_write_keeps_wf, single_write, split_leaf, stem_values,
    write_stem, writes_wf, written_child, NodeModel,
};
use crate::nodes::leaf::{check_expectations, wrong_old_value, LeafNode};
use crate::nodes::Node;
use crate::path::{option_path_view, TriePath};
use crate::primitives::{key_stem, key_suffix, Stem, TrieKey, TrieValue};
use crate::state_write::{first_mismatch, StemStateWrite, SuffixWrite};
use std::collections::HashMap;

verus! {

/// An inner node. A branch at `depth` is indexed by byte `depth` of the stem.
pub struct BranchNode<C: Curve> {
    pub(crate) depth: usize,
    pub(crate) commitment: Commitment<C>,
    pub(crate) children: Vec<Node<C>>,
}

/// The terms of a branch's commitment: `G[i] · hash(commitment of child i)`.
pub open spec fn branch_terms<C: Curve>(child_elems: Seq<C::Elem>) -> Seq<C::Elem> {
    Seq::new(256, |i: int| C::basis_mul(i, C::hash(child_elems[i])))
}

/// The commitment of a branch whose children have the commitments
/// `child_elems`: the sum over `i` of `G[i] · hash(child_elems[i])`.
pub open spec fn branch_elem<C: Curve>(child_elems: Seq<C::Elem>) -> C::Elem {
    sum_seq::<C>(branch_terms::<C>(child_elems))
}

/// What a change of the commitment of child `index` does to the branch's
/// commitment: it gains `G[index]` times the change of the child's image.
pub proof fn lemma_branch_after_child_change<C: Curve>(
    child_elems: Seq<C::Elem>,
    index: int,
    after: C::Elem,
)
    requires
        child_elems.len() == 256,
        0 <= index < 256,
    ensures
        branch_elem::<C>(child_elems.update(index, after)) == C::sum(
            branch_elem::<C>(child_elems),
            C::basis_mul(index, field_sub(C::order(), C::hash(after), C::hash(child_elems[index]))),
        ),
{
    let terms = branch_terms::<C>(child_elems);
    let delta = C::basis_mul(
        index,
        field_sub(C::order(), C::hash(after), C::hash(child_elems[index])),
    );
    C::lemma_hash_below_order(after);
    C::lemma_hash_below_order(child_elems[index]);
    lemma_basis_mul_delta::<C>(index, C::hash(child_elems[index]), C::hash(after));
    lemma_sum_seq_update::<C>(terms, index, delta);
    assert(branch_terms::<C>(child_elems.update(index, after)) =~= terms.update(
        index,
        C::sum(terms[index], delta),
    ));
}

/// A branch without children commits to nothing.
pub proof fn lemma_branch_elem_of_zeros<C: Curve>(child_elems: Seq<C::Elem>)
    requires
        child_elems.len() == 256,
        forall|i: int| 0 <= i < 256 ==> child_elems[i] == C::zero(),
    ensures
        branch_elem::<C>(child_elems) == C::zero(),
{
    let terms = branch_terms::<C>(child_elems);
    C::lemma_hash_zero();
    assert forall|i: int| 0 <= i < terms.len() implies terms[i] == C::zero() by {
        C::lemma_basis_mul_zero(i);
    }
    lemma_sum_seq_zeros::<C>(terms);
}

impl<C: Curve> BranchNode<C> {
    /// What the branch stores: what its 256 children store.
    pub open(crate) spec fn model(self) -> Seq<NodeModel>
        decreases self,
    {
        Seq::new(
            256,
            |i: int|
                if 0 <= i < self.children.len() {
                    self.children[i].model()
                } else {
                    NodeModel::Empty
                },
        )
    }

    /// The depth of the branch: the number of stem bytes that lead to it.
    pub open(crate) spec fn spec_depth(self) -> int {
        self.depth as int
    }

    /// The children as they are held.
    pub open(crate) spec fn nodes(self) -> Seq<Node<C>> {
        self.children@
    }

    /// The group element of the branch's commitment.
    pub open(crate) spec fn commitment_elem(self) -> C::Elem {
        self.commitment.elem()
    }

    /// The commitments of the 256 children.
    pub open(crate) spec fn child_elems(self) -> Seq<C::Elem> {
        Seq::new(256, |i: int| self.children[i].commitment_elem())
    }

    /// The branch is at `depth`, and its commitment and all commitments
    /// below it are those of what is stored there: the branch commits to
    /// `Σ G[i] · hash(commitment of child i)`.
    pub open(crate) spec fn inv_at(self, depth: int) -> bool
        decreases self,
    {
        &&& self.depth == depth
        &&& depth < 31
        &&& self.children.len() == 256
        &&& self.commitment.wf()
        &&& self.commitment.elem() == branch_elem::<C>(self.child_elems())
        &&& forall|i: int| 0 <= i < 256 ==> (#[trigger] self.children[i]).inv_at(depth + 1)
    }

    /// The invariant of a branch at its own depth.
    pub open(crate) spec fn inv(self) -> bool {
        self.inv_at(self.depth as int)
    }

    /// The branch is reached from the root by the stem bytes `path`, what it
    /// stores is well-formed there, and its commitments are consistent.
    pub open(crate) spec fn wf_at(self, path: Seq<u8>) -> bool {
        &&& self.inv_at(path.len() as int)
        &&& crate::model::wf(self.model(), path)
    }

    /// The branch at `depth` that has no children.
    pub fn new(depth: usize) -> (r: Self)
        requires
            depth < 31,
        ensures
            r.inv_at(depth as int),
            r.model() == empty_branch(),
            r.commitment_elem() == C::zero(),
            forall|path: Seq<u8>| path.len() == depth ==> #[trigger] r.wf_at(path),
    {
        let mut children: Vec<Node<C>> = Vec::new();
        let mut i: usize = 0;
        while i < 256
            invariant
                i <= 256,
                children.len() == i,
                forall|k: int| 0 <= k < i ==> children[k] == Node::<C>::Empty,
            decreases 256 - i,
        {
            children.push(Node::Empty);
            i += 1;
        }
        let r = BranchNode { depth, commitment: Commitment::zero(), children };
        proof {
            lemma_branch_elem_of_zeros::<C>(r.child_elems());
            assert(r.model() =~= empty_branch());
            assert forall|path: Seq<u8>| path.len() == depth implies #[trigger] r.wf_at(path) by {
                crate::model::lemma_empty_branch_wf(path);
            }
        }
        r
    }

    /// The commitment of the branch.
    pub fn commitment(&self) -> (r: &C::Point)
        ensures
            C::elem(r) == self.commitment_elem(),
    {
        self.commitment.commitment()
    }

    /// The image of the branch's commitment in the scalar field.
    pub fn commitment_hash(&mut self) -> (r: C::Scalar)
        requires
            old(self).inv(),
        ensures
            final(self).inv(),
            final(self).spec_depth() == old(self).spec_depth(),
            final(self).model() == old(self).model(),
            final(self).nodes() == old(self).nodes(),
            final(self).commitment_elem() == old(self).commitment_elem(),
            C::scalar_value(&r) == C::hash(old(self).commitment_elem()),
    {
        self.commitment.commitment_hash()
    }

    /// The value stored under `key` below this branch.
    pub fn get(&self, key: &TrieKey) -> (r: Option<&TrieValue>)
        requires
            self.inv(),
        ensures
            option_ref_view(r) == stem_values(self.model(), self.spec_depth(), key_stem(key@))[key_suffix(
                key@,
            ) as int],
        decreases 31 - self.spec_depth(),
    {
        let index = key.byte(self.depth) as usize;
        proof {
            assert(self.children[index as int].inv_at(self.depth + 1));
            assert(key_stem(key@)[self.depth as int] == key@[self.depth as int]);
            assert(self.model()[index as int] == self.children[index as int].model());
        }
        match &self.children[index] {
            Node::Empty => None,
            Node::Branch(branch_node) => branch_node.get(key),
            Node::Leaf(leaf_node) => {
                if key.starts_with_stem(leaf_node.stem()) {
                    leaf_node.get(key.suffix() as usize)
                } else {
                    None
                }
            },
        }
    }

    /// The child in slot `index`.
    pub fn get_child(&self, index: usize) -> (r: &Node<C>)
        requires
            self.inv(),
            index < 256,
        ensures
            *r == self.nodes()[index as int],
            r.model() == self.model()[index as int],
            r.inv_at(self.spec_depth() + 1),
    {
        &self.children[index]
    }

    /// Puts `child` in slot `index` and adjusts the commitment.
    pub(crate) fn set_child(&mut self, index: usize, child: Node<C>)
        requires
            old(self).inv(),
            index < 256,
            child.inv_at(old(self).spec_depth() + 1),
        ensures
            final(self).inv(),
            final(self).spec_depth() == old(self).spec_depth(),
            final(self).model() == old(self).model().update(index as int, child.model()),
    {
        let mut child = child;
        let ghost before_elems = self.child_elems();
        let ghost before_model = self.model();
        let new_hash = child.commitment_hash(Ghost(self.depth as int + 1));
        let old_hash = C::map_to_scalar_field(&self.children[index].commitment());
        let delta = C::commit_single(index as u8, &C::scalar_sub(&new_hash, &old_hash));
        self.commitment.add_delta(&delta);
        self.children[index] = child;
        proof {
            lemma_branch_after_child_change::<C>(
                before_elems,
                index as int,
                child.commitment_elem(),
            );
            assert(self.child_elems() =~= before_elems.update(
                index as int,
                child.commitment_elem(),
            ));
            assert(self.model() =~= before_model.update(index as int, child.model()));
            assert forall|i: int| 0 <= i < 256 implies (#[trigger] self.children[i]).inv_at(
                self.depth + 1,
            ) by {
                if i != index {
                    assert(self.children[i] == old(self).children[i]);
                }
            }
        }
    }

    /// Stores `value` under `key` below this branch.
    ///
    /// An empty slot on the way gets a new leaf; a leaf of the key's stem
    /// takes the value; a leaf of another stem moves down into a new branch
    /// at the next depth, which then takes the value.
    pub fn insert(&mut self, key: &TrieKey, value: TrieValue)
        requires
            old(self).spec_depth() <= 30,
            old(self).wf_at(key_stem(key@).subrange(0, old(self).spec_depth())),
        ensures
            final(self).wf_at(key_stem(key@).subrange(0, old(self).spec_depth())),
            final(self).spec_depth() == old(self).spec_depth(),
            final(self).model() == write_stem(
                old(self).model(),
                old(self).spec_depth(),
                key_stem(key@),
                single_write(key_suffix(key@), value@),
            ),
    {
        broadcast use vstd::std_specs::hash::group_hash_axioms;

        let mut writes: HashMap<u8, SuffixWrite> = HashMap::new();
        writes.insert(key.suffix(), SuffixWrite::new(value));
        let state_write = StemStateWrite::new(key.stem(), writes);
        assert(state_write.new_values() =~= single_write(key_suffix(key@), value@));
        let _ = self.apply(&state_write);
    }

    /// Applies the writes of `state_write` below this branch, all or none,
    /// and returns the path of the branch that this created, if any.
    ///
    /// Fails with `WrongOldValue` for the least suffix whose slot holds
    /// something else than its write expects. A failed update changes nothing.
    pub fn update(&mut self, state_write: &StemStateWrite) -> (r: Result<
        Option<TriePath>,
        VerkleTrieError,
    >)
        requires
            old(self).spec_depth() <= 30,
            old(self).wf_at(state_write.stem@.subrange(0, old(self).spec_depth())),
        ensures
            final(self).wf_at(state_write.stem@.subrange(0, old(self).spec_depth())),
            final(self).spec_depth() == old(self).spec_depth(),
            stem_write_result(
                match r {
                    Ok(_) => Ok(()),
                    Err(e) => Err(e),
                },
                old(self).model(),
                old(self).spec_depth(),
                state_write,
            ),
            match r {
                Ok(created) => {
                    &&& final(self).model() == write_stem(
                        old(self).model(),
                        old(self).spec_depth(),
                        state_write.stem@,
                        state_write.new_values(),
                    )
                    &&& option_path_view(created) == created_branch(
                        old(self).model(),
                        old(self).spec_depth(),
                        state_write.stem@,
                    )
                },
                Err(_) => final(self).model() == old(self).model() && final(self).nodes() == old(
                    self,
                ).nodes(),
            },
    {
        match self.check(state_write) {
            Ok(_) => {},
            Err(e) => {
                return Err(e);
            },
        }
        Ok(self.apply(state_write))
    }

    /// Checks what the writes expect of the slots of their stem against what
    /// the trie holds below this branch.
    pub(crate) fn check(&self, state_write: &StemStateWrite) -> (r: Result<(), VerkleTrieError>)
        requires
            self.inv(),
        ensures
            stem_write_result(r, self.model(), self.spec_depth(), state_write),
        decreases 31 - self.spec_depth(),
    {
        let index = state_write.stem.byte(self.depth) as usize;
        proof {
            assert(self.children[index as int].inv_at(self.depth + 1));
            assert(self.model()[index as int] == self.children[index as int].model());
        }
        match &self.children[index] {
            Node::Branch(branch_node) => branch_node.check(state_write),
            Node::Leaf(leaf_node) => {
                if leaf_node.stem().equals(&state_write.stem) {
                    check_expectations(&state_write.stem, &leaf_node.children, state_write)
                } else {
                    let nothing: [Option<TrieValue>; 256] = [None;256];
                    assert(crate::nodes::leaf::values_view(nothing@) =~= empty_values());
                    check_expectations(&state_write.stem, &nothing, state_write)
                }
            },
            Node::Empty => {
                let nothing: [Option<TrieValue>; 256] = [None;256];
                assert(crate::nodes::leaf::values_view(nothing@) =~= empty_values());
                check_expectations(&state_write.stem, &nothing, state_write)
            },
        }
    }

    /// Stores the new value of every write of `state_write` below this
    /// branch, and returns the path of the branch that this created, if any.
    pub(crate) fn apply(&mut self, state_write: &StemStateWrite) -> (r: Option<TriePath>)
        requires
            old(self).spec_depth() <= 30,
            old(self).wf_at(state_write.stem@.subrange(0, old(self).spec_depth())),
        ensures
            final(self).wf_at(state_write.stem@.subrange(0, old(self).spec_depth())),
            final(self).spec_depth() == old(self).spec_depth(),
            final(self).model() == write_stem(
                old(self).model(),
                old(self).spec_depth(),
                state_write.stem@,
                state_write.new_values(),
            ),
            option_path_view(r) == created_branch(
                old(self).model(),
                old(self).spec_depth(),
                state_write.stem@,
            ),
        decreases 31 - old(self).spec_depth(),
    {
        let depth = self.depth;
        let ghost stem = state_write.stem@;
        let ghost writes = state_write.new_values();
        let ghost path = stem.subrange(0, depth as int);
        let ghost before_model = self.model();
        let ghost before_elems = self.child_elems();
        let index = state_write.stem.byte(depth) as usize;
        let ghost below = path.push(index as u8);
        proof {
            state_write.stem.lemma_len();
            lemma_stem_extends_path(stem, path);
            assert(self.children[index as int].inv_at(depth + 1));
            assert(before_model[index as int] == self.children[index as int].model());
            assert(stem.subrange(0, depth + 1) == below);
        }
        let mut child = Node::Empty;
        std::mem::swap(&mut self.children[index], &mut child);
        let ghost old_child = child;
        let old_hash = child.commitment_hash(Ghost(depth as int + 1));
        let mut created: Option<TriePath> = None;
        let mut new_child = match child {
            Node::Empty => {
                let mut leaf_node = LeafNode::new(state_write.stem);
                leaf_node.apply(state_write);
                Node::Leaf(Box::new(leaf_node))
            },
            Node::Branch(mut branch_node) => {
                created = branch_node.apply(state_write);
                Node::Branch(branch_node)
            },
            Node::Leaf(mut leaf_node) => {
                if leaf_node.stem().equals(&state_write.stem) {
                    leaf_node.apply(state_write);
                    Node::Leaf(leaf_node)
                } else {
                    proof {
                        leaf_node.lemma_model_wf();
                        lemma_split_has_room(leaf_node.model().stem, stem, path, index as int);
                        lemma_split_leaf_wf(leaf_node.model(), path, index as int);
                    }
                    let old_child_index_in_new_branch = leaf_node.stem().byte(depth + 1) as usize;
                    let ghost moved = leaf_node.model();
                    let mut branch_node = Self::new(depth + 1);
                    branch_node.set_child(old_child_index_in_new_branch, Node::Leaf(leaf_node));
                    assert(branch_node.model() == split_leaf(moved, depth as int));
                    let _ = branch_node.apply(state_write);
                    created = Some(TriePath::from_stem_prefix(&state_write.stem, depth + 1));
                    Node::Branch(Box::new(branch_node))
                }
            },
        };
        proof {
            assert(new_child.model() == written_child(
                old_child.model(),
                depth as int,
                stem,
                writes,
            ));
            assert(new_child.inv_at(depth + 1));
        }
        let new_hash = new_child.commitment_hash(Ghost(depth as int + 1));
        let delta = C::commit_single(index as u8, &C::scalar_sub(&new_hash, &old_hash));
        self.commitment.add_delta(&delta);
        self.children[index] = new_child;
        proof {
            lemma_branch_after_child_change::<C>(
                before_elems,
                index as int,
                new_child.commitment_elem(),
            );
            assert(self.child_elems() =~= before_elems.update(
                index as int,
                new_child.commitment_elem(),
            ));
            assert(self.model() =~= before_model.update(index as int, new_child.model()));
            assert forall|i: int| 0 <= i < 256 implies (#[trigger] self.children[i]).inv_at(
                depth + 1,
            ) by {
                if i != index {
                    assert(self.children[i] == old(self).children[i]);
                }
            }
            assert forall|k: u8| writes.contains_key(k) implies (#[trigger] writes[k]).len()
                == 32 by {
                state_write.writes@[k].new_value.lemma_len();
            }
            lemma_write_keeps_wf(before_model, path, stem, writes);
        }
        created
    }
}

/// A reference to a value, if any, as optional bytes.
pub open spec fn option_ref_view(v: Option<&TrieValue>) -> Option<Seq<u8>> {
    match v {
        Some(x) => Some(x@),
        None => None,
    }
}

/// What checking `state_write` against the trie below a branch at `depth`
/// returns: `Ok` if no slot of the stem holds something else than its write
/// expects, and else the error for the least such suffix.
pub open spec fn stem_write_result(
    r: Result<(), VerkleTrieError>,
    children: Seq<NodeModel>,
    depth: int,
    state_write: &StemStateWrite,
) -> bool {
    let values = stem_values(children, depth, state_write.stem@);
    match r {
        Ok(_) => first_mismatch(values, state_write.expectations(), 0) is None,
        Err(e) => wrong_old_value(e, state_write.stem@, values, state_write.expectations()),
    }
}

} // verus!
