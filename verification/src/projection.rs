//! The projection of a node onto one bundle and 32 fragments.
//!
//! The 256 slots of a node fall into 32 fragments of 8 consecutive slots.
//! A fragment's commitment is the part of the node's commitment that its 8
//! slots contribute, so the fragment commitments add up to what the node
//! commits to.
use vstd::prelude::*;
use crate::commitment::lemma_sum_seq_push;
use crate::curve::{lemma_sum_seq_concat, sum_seq, Curve};
use crate::nodes::branch::{branch_elem, branch_terms, BranchNode};
use crate::nodes::leaf::{half_elem, half_terms, leaf_elem, values_view, LeafNode};
use crate::portal::nodes::{
    optional_elems, BranchBundleNode, BranchFragmentNode, LeafBundleNode, LeafFragmentNode,
};
use crate::portal::proofs::MultiPointProof;
use crate::portal::sparse_vector::SparseVector;
use crate::primitives::{option_view, TrieValue};

verus! {

/// Number of fragments of a node.
pub const FRAGMENT_COUNT: usize = 32;

/// Number of slots that one fragment covers.
pub const PORTAL_NETWORK_NODE_WIDTH: usize = 8;

/// The sums of `count` consecutive chunks of `chunk` terms each.
pub open spec fn chunk_sums<C: Curve>(terms: Seq<C::Elem>, chunk: int, count: int) -> Seq<
    C::Elem,
> {
    Seq::new(count as nat, |c: int| sum_seq::<C>(terms.subrange(c * chunk, c * chunk + chunk)))
}

/// The sum of the sums of the chunks of a sequence is the sum of the sequence.
pub proof fn lemma_chunk_sums<C: Curve>(terms: Seq<C::Elem>, chunk: int, count: int)
    requires
        chunk > 0,
        count >= 0,
        count * chunk <= terms.len(),
    ensures
        sum_seq::<C>(chunk_sums::<C>(terms, chunk, count)) == sum_seq::<C>(
            terms.subrange(0, count * chunk),
        ),
    decreases count,
{
    if count == 0 {
        assert(terms.subrange(0, 0) =~= Seq::<C::Elem>::empty());
        assert(chunk_sums::<C>(terms, chunk, 0) =~= Seq::<C::Elem>::empty());
    } else {
        let before = count - 1;
        assert(before * chunk + chunk == count * chunk) by (nonlinear_arith)
            requires
                before == count - 1,
        ;
        assert(before * chunk >= 0) by (nonlinear_arith)
            requires
                before >= 0,
                chunk > 0,
        ;
        lemma_chunk_sums::<C>(terms, chunk, before);
        let last = sum_seq::<C>(terms.subrange(before * chunk, before * chunk + chunk));
        assert(chunk_sums::<C>(terms, chunk, count) =~= chunk_sums::<C>(
            terms,
            chunk,
            before,
        ).push(last));
        lemma_sum_seq_push::<C>(chunk_sums::<C>(terms, chunk, before), last);
        assert(terms.subrange(0, count * chunk) =~= terms.subrange(0, before * chunk)
            + terms.subrange(before * chunk, before * chunk + chunk));
        lemma_sum_seq_concat::<C>(
            terms.subrange(0, before * chunk),
            terms.subrange(before * chunk, before * chunk + chunk),
        );
    }
}

/// The commitment of fragment `f` of a branch whose children have the
/// commitments `child_elems`: the sum over `k < 8` of
/// `G[8f + k] · hash(child_elems[8f + k])`.
pub open spec fn branch_fragment_elem<C: Curve>(child_elems: Seq<C::Elem>, f: int) -> C::Elem {
    sum_seq::<C>(branch_terms::<C>(child_elems).subrange(8 * f, 8 * f + 8))
}

/// The commitments of the 32 fragments of a branch.
pub open spec fn branch_fragment_elems<C: Curve>(child_elems: Seq<C::Elem>) -> Seq<C::Elem> {
    Seq::new(32, |f: int| branch_fragment_elem::<C>(child_elems, f))
}

/// The 32 fragment commitments of a branch add up to the branch's commitment.
pub proof fn lemma_branch_fragments_sum<C: Curve>(child_elems: Seq<C::Elem>)
    ensures
        sum_seq::<C>(branch_fragment_elems::<C>(child_elems)) == branch_elem::<C>(child_elems),
{
    let terms = branch_terms::<C>(child_elems);
    lemma_chunk_sums::<C>(terms, 8, 32);
    assert(terms.subrange(0, 256) =~= terms);
    assert(chunk_sums::<C>(terms, 8, 32) =~= branch_fragment_elems::<C>(child_elems));
}

/// The commitment of fragment `f` of a leaf: the part of `c1` (for
/// `f < 16`) or `c2` that the 8 slots `8f .. 8f + 8` contribute, which is
/// the sum over these slots `s` of `G[2i] · low + G[2i + 1] · high` with
/// `i = s mod 128`.
pub open spec fn leaf_fragment_elem<C: Curve>(values: Seq<Option<Seq<u8>>>, f: int) -> C::Elem {
    sum_seq::<C>(half_terms::<C>(values, f / 16).subrange(16 * (f % 16), 16 * (f % 16) + 16))
}

/// The commitments of the 32 fragments of a leaf.
pub open spec fn leaf_fragment_elems<C: Curve>(values: Seq<Option<Seq<u8>>>) -> Seq<C::Elem> {
    Seq::new(32, |f: int| leaf_fragment_elem::<C>(values, f))
}

/// The first 16 fragment commitments of a leaf add up to `c1`, the last 16 to `c2`.
pub proof fn lemma_leaf_fragments_sum<C: Curve>(values: Seq<Option<Seq<u8>>>, half: int)
    requires
        half == 0 || half == 1,
    ensures
        sum_seq::<C>(leaf_fragment_elems::<C>(values).subrange(16 * half, 16 * half + 16))
            == half_elem::<C>(values, half),
{
    let terms = half_terms::<C>(values, half);
    lemma_chunk_sums::<C>(terms, 16, 16);
    assert(terms.subrange(0, 256) =~= terms);
    let part = leaf_fragment_elems::<C>(values).subrange(16 * half, 16 * half + 16);
    let sums = chunk_sums::<C>(terms, 16, 16);
    assert forall|g: int| 0 <= g < 16 implies part[g] == sums[g] by {
        let f = 16 * half + g;
        assert(f / 16 == half);
        assert(f % 16 == g);
    }
    assert(part =~= sums);
}

/// What a bundle holds for a fragment with commitment `e`: nothing if the
/// fragment commits to nothing, and else a point that stands for `e`.
pub open spec fn holds_fragment<C: Curve>(slot: Option<C::Point>, e: C::Elem) -> bool {
    match slot {
        Some(p) => C::elem(&p) == e && e != C::zero(),
        None => e == C::zero(),
    }
}

/// The slots of a sparse vector that holds the fragment commitments `elems`
/// stand for `elems`, position by position.
pub proof fn lemma_held_fragments<C: Curve>(slots: Seq<Option<C::Point>>, elems: Seq<C::Elem>)
    requires
        slots.len() == elems.len(),
        forall|f: int| 0 <= f < slots.len() ==> holds_fragment::<C>(slots[f], elems[f]),
    ensures
        optional_elems::<C>(slots) == elems,
{
    assert(optional_elems::<C>(slots) =~= elems);
}

impl<C: Curve> BranchNode<C> {
    /// The commitment of fragment `fragment_index`, or `None` if the
    /// fragment commits to nothing.
    pub fn get_fragment_commitment(&self, fragment_index: usize) -> (r: Option<C::Point>)
        requires
            self.inv(),
            fragment_index < 32,
        ensures
            holds_fragment::<C>(
                r,
                branch_fragment_elem::<C>(self.child_elems(), fragment_index as int),
            ),
    {
        let start_index = fragment_index * PORTAL_NETWORK_NODE_WIDTH;
        let ghost terms = branch_terms::<C>(self.child_elems());
        let mut commitment = C::point_zero();
        let mut fragment_child_index: usize = 0;
        proof {
            assert(terms.subrange(start_index as int, start_index as int) =~= Seq::<
                C::Elem,
            >::empty());
        }
        while fragment_child_index < PORTAL_NETWORK_NODE_WIDTH
            invariant
                fragment_child_index <= 8,
                fragment_index < 32,
                start_index == 8 * fragment_index,
                self.inv(),
                terms == branch_terms::<C>(self.child_elems()),
                C::elem(&commitment) == sum_seq::<C>(
                    terms.subrange(start_index as int, start_index + fragment_child_index),
                ),
            decreases 8 - fragment_child_index,
        {
            let index = start_index + fragment_child_index;
            let ghost so_far = terms.subrange(start_index as int, index as int);
            proof {
                assert(terms.subrange(start_index as int, index + 1) =~= so_far.push(
                    terms[index as int],
                ));
                lemma_sum_seq_push::<C>(so_far, terms[index as int]);
            }
            let child_commitment = self.children[index].commitment();
            if !C::point_is_zero(&child_commitment) {
                let term = C::commit_single(
                    index as u8,
                    &C::map_to_scalar_field(&child_commitment),
                );
                commitment = C::point_add(&commitment, &term);
            } else {
                proof {
                    C::lemma_hash_zero();
                    C::lemma_basis_mul_zero(index as int);
                    C::lemma_sum_zero(sum_seq::<C>(so_far));
                }
            }
            fragment_child_index += 1;
        }
        if C::point_is_zero(&commitment) {
            None
        } else {
            Some(commitment)
        }
    }

    /// The bundle of the branch: its 32 fragment commitments, and the proof
    /// that they belong together.
    ///
    /// The fragment commitments that the bundle holds add up to the
    /// branch's commitment.
    pub fn extract_bundle_node(&self) -> (r: BranchBundleNode<C>)
        requires
            self.inv(),
        ensures
            forall|f: int|
                0 <= f < 32 ==> holds_fragment::<C>(
                    #[trigger] r.spec_fragments().items()[f],
                    branch_fragment_elem::<C>(self.child_elems(), f),
                ),
            r.commitment_elem() == self.commitment_elem(),
    {
        let mut fragment_commitments: [Option<C::Point>; 32] = [None;32];
        let mut fragment_index: usize = 0;
        while fragment_index < 32
            invariant
                fragment_index <= 32,
                self.inv(),
                forall|f: int|
                    0 <= f < fragment_index ==> holds_fragment::<C>(
                        #[trigger] fragment_commitments@[f],
                        branch_fragment_elem::<C>(self.child_elems(), f),
                    ),
            decreases 32 - fragment_index,
        {
            fragment_commitments[fragment_index] = self.get_fragment_commitment(fragment_index);
            fragment_index += 1;
        }
        let fragments = SparseVector::new(fragment_commitments);
        let bundle_proof = bundle_proof::<C>(&fragments);
        proof {
            lemma_held_fragments::<C>(
                fragment_commitments@,
                branch_fragment_elems::<C>(self.child_elems()),
            );
            lemma_branch_fragments_sum::<C>(self.child_elems());
        }
        BranchBundleNode::new(fragments, bundle_proof)
    }

    /// Fragment `fragment_index` of the branch: its commitment, and the
    /// commitments of its 8 children, those that commit to nothing left out.
    pub fn extract_fragment_node(&self, fragment_index: usize) -> (r: (
        C::Point,
        BranchFragmentNode<C>,
    ))
        requires
            self.inv(),
            fragment_index < 32,
        ensures
            C::elem(&r.0) == branch_fragment_elem::<C>(self.child_elems(), fragment_index as int),
            r.1.spec_fragment_index() == fragment_index,
            forall|k: int|
                0 <= k < 8 ==> holds_fragment::<C>(
                    #[trigger] r.1.spec_children().items()[k],
                    self.child_elems()[8 * fragment_index + k],
                ),
            r.1.commitment_elem() == C::elem(&r.0),
    {
        let fragment_commitment = match self.get_fragment_commitment(fragment_index) {
            Some(commitment) => commitment,
            None => C::point_zero(),
        };
        let mut children: [Option<C::Point>; 8] = [None;8];
        let mut fragment_child_index: usize = 0;
        while fragment_child_index < 8
            invariant
                fragment_child_index <= 8,
                fragment_index < 32,
                self.inv(),
                forall|k: int|
                    0 <= k < fragment_child_index ==> holds_fragment::<C>(
                        #[trigger] children@[k],
                        self.child_elems()[8 * fragment_index + k],
                    ),
            decreases 8 - fragment_child_index,
        {
            let child_index = fragment_index * PORTAL_NETWORK_NODE_WIDTH + fragment_child_index;
            let commitment = self.children[child_index].commitment();
            children[fragment_child_index] = if C::point_is_zero(&commitment) {
                None
            } else {
                Some(commitment)
            };
            fragment_child_index += 1;
        }
        let fragment_node = BranchFragmentNode::new(
            fragment_index as u8,
            SparseVector::new(children),
        );
        proof {
            let wanted = branch_terms::<C>(self.child_elems()).subrange(
                8 * fragment_index,
                8 * fragment_index + 8,
            );
            assert(fragment_node.terms() =~= wanted);
        }
        (fragment_commitment, fragment_node)
    }
}

impl<C: Curve> LeafNode<C> {
    /// The commitment of fragment `fragment_index`, or `None` if the
    /// fragment commits to nothing.
    pub fn get_fragment_commitment(&self, fragment_index: usize) -> (r: Option<C::Point>)
        requires
            fragment_index < 32,
        ensures
            holds_fragment::<C>(
                r,
                leaf_fragment_elem::<C>(self.model().values, fragment_index as int),
            ),
    {
        let point = leaf_fragment_commitment::<C>(&self.children, fragment_index);
        if C::point_is_zero(&point) {
            None
        } else {
            Some(point)
        }
    }

    /// The bundle of the leaf: marker, stem, its 32 fragment commitments,
    /// and the proof that they belong together.
    ///
    /// The bundle commits to what the leaf commits to.
    pub fn extract_bundle_node(&self) -> (r: LeafBundleNode<C>)
        requires
            self.wf(),
        ensures
            r.spec_marker() == 1,
            r.spec_stem()@ == self.model().stem,
            forall|f: int|
                0 <= f < 32 ==> holds_fragment::<C>(
                    #[trigger] r.spec_fragments().items()[f],
                    leaf_fragment_elem::<C>(self.model().values, f),
                ),
            r.commitment_elem() == self.commitment_elem(),
    {
        let mut fragment_commitments: [Option<C::Point>; 32] = [None;32];
        let mut fragment_index: usize = 0;
        while fragment_index < 32
            invariant
                fragment_index <= 32,
                forall|f: int|
                    0 <= f < fragment_index ==> holds_fragment::<C>(
                        #[trigger] fragment_commitments@[f],
                        leaf_fragment_elem::<C>(self.model().values, f),
                    ),
            decreases 32 - fragment_index,
        {
            fragment_commitments[fragment_index] = self.get_fragment_commitment(fragment_index);
            fragment_index += 1;
        }
        let fragments = SparseVector::new(fragment_commitments);
        let bundle_proof = bundle_proof::<C>(&fragments);
        let r = LeafBundleNode::new(self.marker, self.stem, fragments, bundle_proof);
        proof {
            let values = self.model().values;
            let elems = leaf_fragment_elems::<C>(values);
            lemma_held_fragments::<C>(fragment_commitments@, elems);
            lemma_leaf_fragments_sum::<C>(values, 0);
            lemma_leaf_fragments_sum::<C>(values, 1);
            assert(elems.subrange(16, 32) =~= elems.subrange(16 * 1int, 16 * 1int + 16));
            assert(elems.subrange(0, 16) =~= elems.subrange(16 * 0int, 16 * 0int + 16));
        }
        r
    }

    /// Fragment `fragment_index` of the leaf: its commitment, and the
    /// values of its 8 suffixes.
    pub fn extract_fragment_node(&self, fragment_index: usize) -> (r: (C::Point, LeafFragmentNode))
        requires
            fragment_index < 32,
        ensures
            C::elem(&r.0) == leaf_fragment_elem::<C>(self.model().values, fragment_index as int),
            r.1.spec_fragment_index() == fragment_index,
            forall|k: int|
                0 <= k < 8 ==> option_view(#[trigger] r.1.spec_children().items()[k])
                    == self.model().values[8 * fragment_index + k],
    {
        let fragment_commitment = leaf_fragment_commitment::<C>(&self.children, fragment_index);
        let mut children: [Option<TrieValue>; 8] = [None;8];
        let mut k: usize = 0;
        while k < 8
            invariant
                k <= 8,
                fragment_index < 32,
                forall|j: int| 0 <= j < k ==> #[trigger] children@[j] == self.children@[8 * fragment_index + j],
            decreases 8 - k,
        {
            children[k] = self.children[fragment_index * PORTAL_NETWORK_NODE_WIDTH + k];
            k += 1;
        }
        let node = LeafFragmentNode::new(fragment_index as u8, SparseVector::new(children));
        (fragment_commitment, node)
    }
}

/// The commitment to the 8 slots `8f .. 8f + 8` of `children`, where `f` is
/// `fragment_index`.
pub fn leaf_fragment_commitment<C: Curve>(
    children: &[Option<TrieValue>; 256],
    fragment_index: usize,
) -> (r: C::Point)
    requires
        fragment_index < 32,
    ensures
        C::elem(&r) == leaf_fragment_elem::<C>(values_view(children@), fragment_index as int),
{
    let ghost values = values_view(children@);
    let half = fragment_index / 16;
    let first = 16 * (fragment_index % 16);
    let ghost terms = half_terms::<C>(values, half as int);
    let mut commitment = C::point_zero();
    let mut k: usize = 0;
    proof {
        assert(terms.subrange(first as int, first as int) =~= Seq::<C::Elem>::empty());
    }
    while k < 8
        invariant
            k <= 8,
            fragment_index < 32,
            half == fragment_index / 16,
            first == 16 * (fragment_index % 16),
            values == values_view(children@),
            terms == half_terms::<C>(values, half as int),
            C::elem(&commitment) == sum_seq::<C>(terms.subrange(first as int, first + 2 * k)),
        decreases 8 - k,
    {
        let low_index = first + 2 * k;
        let slot = 8 * fragment_index + k;
        let ghost so_far = terms.subrange(first as int, low_index as int);
        proof {
            assert(terms.subrange(first as int, low_index + 2) =~= so_far.push(
                terms[low_index as int],
            ).push(terms[low_index + 1]));
            lemma_sum_seq_push::<C>(so_far, terms[low_index as int]);
            lemma_sum_seq_push::<C>(so_far.push(terms[low_index as int]), terms[low_index + 1]);
            assert(128 * half + low_index / 2 == slot);
            assert(128 * half + (low_index + 1) / 2 == slot);
        }
        match children[slot] {
            Some(child) => {
                let (low, high) = child.split::<C>();
                let low_term = C::commit_single(low_index as u8, &low);
                let high_term = C::commit_single((low_index + 1) as u8, &high);
                commitment = C::point_add(&commitment, &low_term);
                commitment = C::point_add(&commitment, &high_term);
            },
            None => {
                proof {
                    C::lemma_sum_zero(sum_seq::<C>(so_far));
                }
            },
        }
        k += 1;
    }
    commitment
}

/// The 256 slots of a leaf that holds the values of `fragment` and nothing else.
pub open spec fn fragment_slots(fragment: LeafFragmentNode) -> Seq<Option<Seq<u8>>> {
    Seq::new(
        256,
        |s: int|
            if 8 * fragment.spec_fragment_index() <= s < 8 * fragment.spec_fragment_index() + 8 {
                option_view(fragment.spec_children().items()[s - 8 * fragment.spec_fragment_index()])
            } else {
                None
            },
    )
}

impl LeafFragmentNode {
    /// What the fragment commits to: the sum over its values of
    /// `G[2i] · low + G[2i + 1] · high`, where `i` is the suffix of the
    /// value modulo 128.
    pub open spec fn commitment_elem<C: Curve>(self) -> C::Elem {
        leaf_fragment_elem::<C>(fragment_slots(self), self.spec_fragment_index() as int)
    }

    /// The commitment of the fragment.
    pub fn commitment<C: Curve>(&self) -> (r: C::Point)
        requires
            self.spec_fragment_index() < 32,
        ensures
            C::elem(&r) == self.commitment_elem::<C>(),
    {
        let first = (self.fragment_index as usize) * PORTAL_NETWORK_NODE_WIDTH;
        let mut slots: [Option<TrieValue>; 256] = [None;256];
        let mut k: usize = 0;
        proof {
            self.children.lemma_len();
        }
        while k < 8
            invariant
                k <= 8,
                first == 8 * self.fragment_index,
                self.fragment_index < 32,
                self.children.items().len() == 8,
                forall|s: int| 0 <= s < 256 && !(first <= s < first + k) ==> slots@[s] is None,
                forall|j: int| 0 <= j < k ==> slots@[first + j] == self.children.items()[j],
            decreases 8 - k,
        {
            slots[first + k] = self.children.get(k);
            k += 1;
        }
        assert(values_view(slots@) =~= fragment_slots(*self));
        leaf_fragment_commitment::<C>(&slots, self.fragment_index as usize)
    }

    /// Whether the fragment commits to `commitment`.
    pub fn verify<C: Curve>(&self, commitment: &C::Point) -> (r: bool)
        requires
            self.spec_fragment_index() < 32,
        ensures
            r == (self.commitment_elem::<C>() == C::elem(commitment)),
    {
        let own = self.commitment::<C>();
        C::point_eq(&own, commitment)
    }
}

/// The proof that goes into a bundle with the given fragment commitments.
/// No prover is attached: the proof holds zeros.
pub fn bundle_proof<C: Curve>(fragment_commitments: &SparseVector<C::Point, 32>) -> (r:
    MultiPointProof<C>)
    ensures
        r.is_zeroed(),
{
    MultiPointProof::zeroed()
}

} // verus!
