//! A fragment of a branch that is kept up to date child by child.
use vstd::prelude::*;
use crate::commitment::{commit_sparse, lemma_sum_seq_push, sparse_terms};
use crate::curve::{
    field_sub, lemma_basis_mul_delta, lemma_sum_seq_update, lemma_sum_seq_zeros, sum_seq, Curve,
};
use crate::nodes::branch::branch_terms;
use crate::projection::{branch_fragment_elem, PORTAL_NETWORK_NODE_WIDTH};

verus! {

/// Eight consecutive children of a branch, as commitments, with the part of
/// the branch's commitment that they contribute.
pub struct BranchFragmentNode<C: Curve> {
    pub(crate) parent_index: usize,
    pub(crate) commitment: C::Point,
    pub(crate) children: [C::Point; 8],
}

impl<C: Curve> BranchFragmentNode<C> {
    /// The index of the fragment in its branch.
    pub open(crate) spec fn spec_parent_index(self) -> int {
        self.parent_index as int
    }

    /// The group elements of the eight children.
    pub open(crate) spec fn child_elems(self) -> Seq<C::Elem> {
        Seq::new(8, |k: int| C::elem(&self.children[k]))
    }

    /// The group element of the fragment's commitment.
    pub open(crate) spec fn commitment_elem(self) -> C::Elem {
        C::elem(&self.commitment)
    }

    /// The terms of the commitment: child `k` at basis point `8 · parent_index + k`.
    pub open(crate) spec fn terms(self) -> Seq<C::Elem> {
        Seq::new(
            8,
            |k: int| C::basis_mul(8 * self.parent_index + k, C::hash(C::elem(&self.children[k]))),
        )
    }

    /// The fragment is one of the 32 of a branch, and its commitment is the
    /// sum over its children `k` of `G[8 · parent_index + k] · hash(child k)`.
    pub open(crate) spec fn wf(self) -> bool {
        &&& self.parent_index < 32
        &&& C::elem(&self.commitment) == sum_seq::<C>(self.terms())
    }

    /// The basis point of child `child_index` of fragment `parent_index`.
    pub fn bases_index(parent_index: usize, child_index: usize) -> (r: usize)
        requires
            parent_index < 32,
            child_index < 8,
        ensures
            r == 8 * parent_index + child_index,
            r < 256,
    {
        parent_index * PORTAL_NETWORK_NODE_WIDTH + child_index
    }

    /// The fragment `parent_index` whose children all commit to nothing.
    pub fn new(parent_index: usize) -> (r: Self)
        requires
            parent_index < 32,
        ensures
            r.wf(),
            r.spec_parent_index() == parent_index,
            r.commitment_elem() == C::zero(),
            forall|k: int| 0 <= k < 8 ==> #[trigger] r.child_elems()[k] == C::zero(),
    {
        let zero = C::point_zero();
        let children: [C::Point; 8] = [zero;8];
        let r = Self::new_with_children(parent_index, children);
        proof {
            C::lemma_hash_zero();
            assert forall|k: int| 0 <= k < 8 implies #[trigger] r.child_elems()[k]
                == C::zero() by {
                assert(children[k] == zero);
                assert(r.child_elems()[k] == C::elem(&children[k]));
            }
            assert forall|k: int| 0 <= k < 8 implies #[trigger] r.terms()[k] == C::zero() by {
                assert(r.child_elems()[k] == C::zero());
                C::lemma_basis_mul_zero(8 * parent_index + k);
            }
            lemma_sum_seq_zeros::<C>(r.terms());
        }
        r
    }

    /// The fragment `parent_index` with the given children.
    pub fn new_with_children(parent_index: usize, children: [C::Point; 8]) -> (r: Self)
        requires
            parent_index < 32,
        ensures
            r.wf(),
            r.spec_parent_index() == parent_index,
            r.child_elems() == Seq::new(8, |k: int| C::elem(&children[k])),
    {
        let ghost terms = Seq::new(
            8,
            |k: int| C::basis_mul(8 * parent_index + k, C::hash(C::elem(&children[k]))),
        );
        let mut entries: Vec<(usize, C::Scalar)> = Vec::new();
        let mut child_index: usize = 0;
        proof {
            assert(terms.subrange(0, 0) =~= Seq::<C::Elem>::empty());
            assert(sparse_terms::<C>(entries@) =~= Seq::<C::Elem>::empty());
        }
        while child_index < 8
            invariant
                child_index <= 8,
                parent_index < 32,
                terms == Seq::new(
                    8,
                    |k: int| C::basis_mul(8 * parent_index + k, C::hash(C::elem(&children[k]))),
                ),
                forall|i: int| 0 <= i < entries@.len() ==> (#[trigger] entries@[i]).0 < 256,
                sum_seq::<C>(sparse_terms::<C>(entries@)) == sum_seq::<C>(
                    terms.subrange(0, child_index as int),
                ),
            decreases 8 - child_index,
        {
            let ghost before = sparse_terms::<C>(entries@);
            let ghost so_far = terms.subrange(0, child_index as int);
            proof {
                assert(terms.subrange(0, child_index + 1) =~= so_far.push(
                    terms[child_index as int],
                ));
                lemma_sum_seq_push::<C>(so_far, terms[child_index as int]);
            }
            let child_commitment_hash = C::map_to_scalar_field(&children[child_index]);
            if C::scalar_is_zero(&child_commitment_hash) {
                proof {
                    C::lemma_basis_mul_zero(8 * parent_index + child_index);
                    C::lemma_sum_zero(sum_seq::<C>(so_far));
                }
            } else {
                entries.push((Self::bases_index(parent_index, child_index), child_commitment_hash));
                proof {
                    assert(sparse_terms::<C>(entries@) =~= before.push(terms[child_index as int]));
                    lemma_sum_seq_push::<C>(before, terms[child_index as int]);
                }
            }
            child_index += 1;
        }
        let commitment = commit_sparse::<C>(entries.as_slice());
        let r = BranchFragmentNode { parent_index, commitment, children };
        proof {
            assert(terms.subrange(0, 8) =~= terms);
            assert(r.terms() =~= terms);
            assert(r.child_elems() =~= Seq::new(8, |k: int| C::elem(&children[k])));
        }
        r
    }

    /// The commitment of the fragment.
    pub fn commitment(&self) -> (r: &C::Point)
        ensures
            C::elem(r) == self.commitment_elem(),
    {
        &self.commitment
    }

    /// Replaces child `child_index` by `child`.
    pub fn set(&mut self, child_index: usize, child: C::Point)
        requires
            old(self).wf(),
            child_index < 8,
        ensures
            final(self).wf(),
            final(self).spec_parent_index() == old(self).spec_parent_index(),
            final(self).child_elems() == old(self).child_elems().update(
                child_index as int,
                C::elem(&child),
            ),
    {
        let ghost before = self.terms();
        let ghost old_elem = C::elem(&self.children[child_index as int]);
        let index = Self::bases_index(self.parent_index, child_index);
        let delta = C::commit_single(
            index as u8,
            &C::scalar_sub(
                &C::map_to_scalar_field(&child),
                &C::map_to_scalar_field(&self.children[child_index]),
            ),
        );
        self.commitment = C::point_add(&self.commitment, &delta);
        self.children[child_index] = child;
        proof {
            C::lemma_hash_below_order(old_elem);
            C::lemma_hash_below_order(C::elem(&child));
            lemma_basis_mul_delta::<C>(index as int, C::hash(old_elem), C::hash(C::elem(&child)));
            lemma_sum_seq_update::<C>(before, child_index as int, C::elem(&delta));
            assert(self.terms() =~= before.update(
                child_index as int,
                C::sum(before[child_index as int], C::elem(&delta)),
            ));
            assert(self.child_elems() =~= old(self).child_elems().update(
                child_index as int,
                C::elem(&child),
            ));
        }
    }

    /// Child `child_index`.
    pub fn get(&self, child_index: usize) -> (r: &C::Point)
        requires
            child_index < 8,
        ensures
            C::elem(r) == self.child_elems()[child_index as int],
    {
        &self.children[child_index]
    }
}

/// A fragment that holds the commitments of children `8f .. 8f + 8` of a
/// branch commits to what fragment `f` of the branch commits to.
pub proof fn lemma_fragment_matches_branch<C: Curve>(
    fragment: BranchFragmentNode<C>,
    child_elems: Seq<C::Elem>,
)
    requires
        fragment.wf(),
        child_elems.len() == 256,
        forall|k: int|
            0 <= k < 8 ==> #[trigger] fragment.child_elems()[k] == child_elems[8
                * fragment.spec_parent_index() + k],
    ensures
        fragment.commitment_elem() == branch_fragment_elem::<C>(
            child_elems,
            fragment.spec_parent_index(),
        ),
{
    let f = fragment.spec_parent_index();
    let wanted = branch_terms::<C>(child_elems).subrange(8 * f, 8 * f + 8);
    assert forall|k: int| 0 <= k < 8 implies fragment.terms()[k] == wanted[k] by {
        assert(fragment.child_elems()[k] == child_elems[8 * f + k]);
    }
    assert(fragment.terms() =~= wanted);
}

} // verus!
