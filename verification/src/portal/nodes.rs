//! The descriptors of bundles and fragments.
use vstd::prelude::*;
use crate::commitment::{commit_sparse, lemma_sum_seq_push, sparse_terms};
use crate::numbers::u64_to_le_bytes;
use crate::curve::{sum_seq, Curve};
use crate::nodes::branch::branch_terms;
use crate::path::TriePath;
use crate::portal::proofs::{BundleProof, TrieProof};
use crate::portal::sparse_vector::SparseVector;
use crate::primitives::{stem_scalar, Stem, TrieValue};

verus! {

/// The group elements that a sparse vector of points stands for; an unset
/// position stands for the neutral element.
pub open spec fn optional_elems<C: Curve>(slots: Seq<Option<C::Point>>) -> Seq<C::Elem> {
    Seq::new(
        slots.len(),
        |i: int|
            match slots[i] {
                Some(p) => C::elem(&p),
                None => C::zero(),
            },
    )
}

/// The sum of the points that are set in `slots`.
pub fn sum_set_points<C: Curve, const N: usize>(slots: &SparseVector<C::Point, N>) -> (r: C::Point)
    ensures
        C::elem(&r) == sum_seq::<C>(optional_elems::<C>(slots.items())),
{
    let ghost elems = optional_elems::<C>(slots.items());
    let mut total = C::point_zero();
    let mut i: usize = 0;
    proof {
        slots.lemma_len();
        assert(elems.subrange(0, 0) =~= Seq::<C::Elem>::empty());
    }
    while i < N
        invariant
            i <= N,
            slots.items().len() == N,
            elems == optional_elems::<C>(slots.items()),
            C::elem(&total) == sum_seq::<C>(elems.subrange(0, i as int)),
        decreases N - i,
    {
        proof {
            assert(elems.subrange(0, i + 1) =~= elems.subrange(0, i as int).push(elems[i as int]));
            lemma_sum_seq_push::<C>(elems.subrange(0, i as int), elems[i as int]);
        }
        match slots.get(i) {
            Some(point) => {
                total = C::point_add(&total, &point);
            },
            None => {
                proof {
                    C::lemma_sum_zero(C::elem(&total));
                }
            },
        }
        i += 1;
    }
    proof {
        assert(elems.subrange(0, N as int) =~= elems);
    }
    total
}

/// The bundle of a branch: the commitments of its 32 fragments.
pub struct BranchBundleNode<C: Curve> {
    pub(crate) fragments: SparseVector<C::Point, 32>,
    pub(crate) bundle_proof: BundleProof<C>,
}

/// A bundle of a branch with what proves that it belongs to a state root.
pub struct BranchBundleNodeWithProof<C: Curve> {
    pub node: BranchBundleNode<C>,
    pub block_hash: [u8; 32],
    pub path: TriePath,
    pub trie_proof: TrieProof<C>,
}

/// A fragment of a branch: the commitments of 8 consecutive children.
pub struct BranchFragmentNode<C: Curve> {
    pub(crate) fragment_index: u8,
    pub(crate) children: SparseVector<C::Point, 8>,
}

/// A fragment of a branch with what proves that it belongs to a state root.
pub struct BranchFragmentNodeWithProof<C: Curve> {
    pub node: BranchFragmentNode<C>,
    pub block_hash: [u8; 32],
    pub path: TriePath,
    pub trie_proof: TrieProof<C>,
}

/// The bundle of a leaf: marker, stem, and the commitments of its 32 fragments.
pub struct LeafBundleNode<C: Curve> {
    pub(crate) marker: u64,
    pub(crate) stem: Stem,
    pub(crate) fragments: SparseVector<C::Point, 32>,
    pub(crate) bundle_proof: BundleProof<C>,
}

/// A bundle of a leaf with what proves that it belongs to a state root.
pub struct LeafBundleNodeWithProof<C: Curve> {
    pub node: LeafBundleNode<C>,
    pub block_hash: [u8; 32],
    pub trie_proof: TrieProof<C>,
}

/// A fragment of a leaf: the values of 8 consecutive suffixes.
#[derive(Debug, Clone, Copy, PartialEq, Eq)]
pub struct LeafFragmentNode {
    pub(crate) fragment_index: u8,
    pub(crate) children: SparseVector<TrieValue, 8>,
}

/// A fragment of a leaf with what proves that it belongs to a state root.
pub struct LeafFragmentNodeWithProof<C: Curve> {
    pub node: LeafFragmentNode,
    pub block_hash: [u8; 32],
    pub trie_proof: TrieProof<C>,
}

impl<C: Curve> BranchBundleNode<C> {
    pub open(crate) spec fn spec_fragments(self) -> SparseVector<C::Point, 32> {
        self.fragments
    }

    pub open(crate) spec fn spec_bundle_proof(self) -> BundleProof<C> {
        self.bundle_proof
    }

    /// What the bundle commits to: the sum of its fragment commitments.
    pub open(crate) spec fn commitment_elem(self) -> C::Elem {
        sum_seq::<C>(optional_elems::<C>(self.fragments.items()))
    }

    pub fn new(fragments: SparseVector<C::Point, 32>, bundle_proof: BundleProof<C>) -> (r: Self)
        ensures
            r.spec_fragments() == fragments,
            r.spec_bundle_proof() == bundle_proof,
    {
        BranchBundleNode { fragments, bundle_proof }
    }

    pub fn fragments(&self) -> (r: &SparseVector<C::Point, 32>)
        ensures
            *r == self.spec_fragments(),
    {
        &self.fragments
    }

    pub fn bundle_proof(&self) -> (r: &BundleProof<C>)
        ensures
            *r == self.spec_bundle_proof(),
    {
        &self.bundle_proof
    }

    /// The commitment of the bundle: the sum of its fragment commitments.
    pub fn commitment(&self) -> (r: C::Point)
        ensures
            C::elem(&r) == self.commitment_elem(),
    {
        sum_set_points::<C, 32>(&self.fragments)
    }

    /// Whether the fragment commitments add up to `commitment`.
    pub fn verify(&self, commitment: &C::Point) -> (r: bool)
        ensures
            r == (self.commitment_elem() == C::elem(commitment)),
    {
        let own = self.commitment();
        C::point_eq(&own, commitment)
    }
}

impl<C: Curve> BranchFragmentNode<C> {
    pub open(crate) spec fn spec_fragment_index(self) -> u8 {
        self.fragment_index
    }

    pub open(crate) spec fn spec_children(self) -> SparseVector<C::Point, 8> {
        self.children
    }

    /// The terms of the fragment's commitment: child `k` at basis point
    /// `8 · fragment_index + k`.
    pub open(crate) spec fn terms(self) -> Seq<C::Elem> {
        Seq::new(
            8,
            |k: int|
                C::basis_mul(
                    8 * self.fragment_index + k,
                    C::hash(optional_elems::<C>(self.children.items())[k]),
                ),
        )
    }

    /// What the fragment commits to.
    pub open(crate) spec fn commitment_elem(self) -> C::Elem {
        sum_seq::<C>(self.terms())
    }

    pub fn new(fragment_index: u8, children: SparseVector<C::Point, 8>) -> (r: Self)
        ensures
            r.spec_fragment_index() == fragment_index,
            r.spec_children() == children,
    {
        BranchFragmentNode { fragment_index, children }
    }

    pub fn fragment_index(&self) -> (r: u8)
        ensures
            r == self.spec_fragment_index(),
    {
        self.fragment_index
    }

    pub fn children(&self) -> (r: &SparseVector<C::Point, 8>)
        ensures
            *r == self.spec_children(),
    {
        &self.children
    }

    /// The commitment of the fragment: the sum over its children `k` of
    /// `G[8 · fragment_index + k] · hash(child k)`.
    pub fn commitment(&self) -> (r: C::Point)
        requires
            self.spec_fragment_index() < 32,
        ensures
            C::elem(&r) == self.commitment_elem(),
    {
        let ghost terms = self.terms();
        let mut total = C::point_zero();
        let mut k: usize = 0;
        proof {
            self.children.lemma_len();
            assert(terms.subrange(0, 0) =~= Seq::<C::Elem>::empty());
        }
        while k < 8
            invariant
                k <= 8,
                self.fragment_index < 32,
                self.children.items().len() == 8,
                terms == self.terms(),
                C::elem(&total) == sum_seq::<C>(terms.subrange(0, k as int)),
            decreases 8 - k,
        {
            proof {
                assert(terms.subrange(0, k + 1) =~= terms.subrange(0, k as int).push(
                    terms[k as int],
                ));
                lemma_sum_seq_push::<C>(terms.subrange(0, k as int), terms[k as int]);
            }
            let index = (self.fragment_index as usize) * 8 + k;
            match self.children.get(k) {
                Some(child) => {
                    let term = C::commit_single(index as u8, &C::map_to_scalar_field(&child));
                    total = C::point_add(&total, &term);
                },
                None => {
                    proof {
                        C::lemma_hash_zero();
                        C::lemma_basis_mul_zero(index as int);
                        C::lemma_sum_zero(C::elem(&total));
                    }
                },
            }
            k += 1;
        }
        proof {
            assert(terms.subrange(0, 8) =~= terms);
        }
        total
    }

    /// Whether the fragment commits to `commitment`.
    pub fn verify(&self, commitment: &C::Point) -> (r: bool)
        requires
            self.spec_fragment_index() < 32,
        ensures
            r == (self.commitment_elem() == C::elem(commitment)),
    {
        let own = self.commitment();
        C::point_eq(&own, commitment)
    }
}

/// The terms of a leaf bundle's commitment.
pub open spec fn leaf_bundle_terms<C: Curve>(
    marker: u64,
    stem: Seq<u8>,
    c1: C::Elem,
    c2: C::Elem,
) -> Seq<C::Elem> {
    seq![
        C::basis_mul(0, (marker as nat) % C::order()),
        C::basis_mul(1, stem_scalar(C::order(), stem)),
        C::basis_mul(2, C::hash(c1)),
        C::basis_mul(3, C::hash(c2)),
    ]
}

impl<C: Curve> LeafBundleNode<C> {
    pub open(crate) spec fn spec_marker(self) -> u64 {
        self.marker
    }

    pub open(crate) spec fn spec_stem(self) -> Stem {
        self.stem
    }

    pub open(crate) spec fn spec_bundle_proof(self) -> BundleProof<C> {
        self.bundle_proof
    }

    pub open(crate) spec fn spec_fragments(self) -> SparseVector<C::Point, 32> {
        self.fragments
    }

    /// What the first 16 fragments commit to together: the leaf's `c1`.
    pub open(crate) spec fn c1_elem(self) -> C::Elem {
        sum_seq::<C>(optional_elems::<C>(self.fragments.items()).subrange(0, 16))
    }

    /// What the last 16 fragments commit to together: the leaf's `c2`.
    pub open(crate) spec fn c2_elem(self) -> C::Elem {
        sum_seq::<C>(optional_elems::<C>(self.fragments.items()).subrange(16, 32))
    }

    /// What the bundle commits to:
    /// `G[0] · marker + G[1] · stem + G[2] · hash(c1) + G[3] · hash(c2)`.
    pub open(crate) spec fn commitment_elem(self) -> C::Elem {
        sum_seq::<C>(
            leaf_bundle_terms::<C>(self.marker, self.stem@, self.c1_elem(), self.c2_elem()),
        )
    }

    pub fn new(
        marker: u64,
        stem: Stem,
        fragments: SparseVector<C::Point, 32>,
        bundle_proof: BundleProof<C>,
    ) -> (r: Self)
        ensures
            r.spec_marker() == marker,
            r.spec_stem() == stem,
            r.spec_fragments() == fragments,
            r.spec_bundle_proof() == bundle_proof,
    {
        LeafBundleNode { marker, stem, fragments, bundle_proof }
    }

    pub fn marker(&self) -> (r: u64)
        ensures
            r == self.spec_marker(),
    {
        self.marker
    }

    pub fn stem(&self) -> (r: &Stem)
        ensures
            *r == self.spec_stem(),
    {
        &self.stem
    }

    pub fn fragments(&self) -> (r: &SparseVector<C::Point, 32>)
        ensures
            *r == self.spec_fragments(),
    {
        &self.fragments
    }

    pub fn bundle_proof(&self) -> (r: &BundleProof<C>)
        ensures
            *r == self.spec_bundle_proof(),
    {
        &self.bundle_proof
    }

    /// The sum of the fragment commitments `from .. from + 16`.
    fn half_sum(&self, from: usize) -> (r: C::Point)
        requires
            from == 0 || from == 16,
        ensures
            C::elem(&r) == sum_seq::<C>(
                optional_elems::<C>(self.fragments.items()).subrange(from as int, from + 16),
            ),
    {
        let ghost elems = optional_elems::<C>(self.fragments.items());
        let mut total = C::point_zero();
        let mut i: usize = 0;
        proof {
            self.fragments.lemma_len();
            assert(elems.subrange(from as int, from as int) =~= Seq::<C::Elem>::empty());
        }
        while i < 16
            invariant
                i <= 16,
                from == 0 || from == 16,
                self.fragments.items().len() == 32,
                elems == optional_elems::<C>(self.fragments.items()),
                C::elem(&total) == sum_seq::<C>(elems.subrange(from as int, from + i)),
            decreases 16 - i,
        {
            proof {
                let so_far = elems.subrange(from as int, from + i);
                assert(elems.subrange(from as int, from + i + 1) =~= so_far.push(elems[from + i]));
                lemma_sum_seq_push::<C>(so_far, elems[from + i]);
            }
            match self.fragments.get(from + i) {
                Some(point) => {
                    total = C::point_add(&total, &point);
                },
                None => {
                    proof {
                        C::lemma_sum_zero(C::elem(&total));
                    }
                },
            }
            i += 1;
        }
        total
    }

    /// The commitment of the bundle, which is that of the leaf.
    pub fn commitment(&self) -> (r: C::Point)
        ensures
            C::elem(&r) == self.commitment_elem(),
    {
        let c1 = self.half_sum(0);
        let c2 = self.half_sum(16);
        let marker = u64_to_le_bytes(self.marker);
        let entries: [(usize, C::Scalar); 4] = [
            (0, C::scalar_from_le_bytes(&marker)),
            (1, self.stem.to_scalar::<C>()),
            (2, C::map_to_scalar_field(&c1)),
            (3, C::map_to_scalar_field(&c2)),
        ];
        let point = commit_sparse::<C>(&entries);
        proof {
            assert(sparse_terms::<C>(entries@) =~= leaf_bundle_terms::<C>(
                self.marker,
                self.stem@,
                self.c1_elem(),
                self.c2_elem(),
            ));
        }
        point
    }

    /// Whether the bundle commits to `commitment`.
    pub fn verify(&self, commitment: &C::Point) -> (r: bool)
        ensures
            r == (self.commitment_elem() == C::elem(commitment)),
    {
        let own = self.commitment();
        C::point_eq(&own, commitment)
    }
}

impl LeafFragmentNode {
    pub open(crate) spec fn spec_fragment_index(self) -> u8 {
        self.fragment_index
    }

    pub open(crate) spec fn spec_children(self) -> SparseVector<TrieValue, 8> {
        self.children
    }

    pub fn new(fragment_index: u8, children: SparseVector<TrieValue, 8>) -> (r: Self)
        ensures
            r.spec_fragment_index() == fragment_index,
            r.spec_children() == children,
    {
        LeafFragmentNode { fragment_index, children }
    }

    pub fn fragment_index(&self) -> (r: u8)
        ensures
            r == self.spec_fragment_index(),
    {
        self.fragment_index
    }

    pub fn children(&self) -> (r: &SparseVector<TrieValue, 8>)
        ensures
            *r == self.spec_children(),
    {
        &self.children
    }
}

} // verus!
