//! The proofs that travel with nodes. An outside prover fills them in; the
//! trie only reserves their shape.
use vstd::prelude::*;
use crate::curve::{scalar_zero, Curve};

verus! {

/// An inner product argument.
pub struct IpaProof<C: Curve> {
    pub cl: [C::Point; 8],
    pub cr: [C::Point; 8],
    pub final_evaluation: C::Scalar,
}

/// A multi-point proof built on an inner product argument.
pub struct MultiPointProof<C: Curve> {
    pub ipa_proof: IpaProof<C>,
    pub g_x: C::Point,
}

/// The proof that the fragments of a bundle belong to its commitment.
pub type BundleProof<C> = MultiPointProof<C>;

/// The proof that a node belongs to the trie with a given root.
pub struct TrieProof<C: Curve> {
    pub commitments_by_path: Vec<C::Point>,
    pub multiproof: MultiPointProof<C>,
}

impl<C: Curve> MultiPointProof<C> {
    /// Every point of the proof is the zero point, and its scalar is zero.
    pub open spec fn is_zeroed(self) -> bool {
        &&& C::elem(&self.g_x) == C::zero()
        &&& C::scalar_value(&self.ipa_proof.final_evaluation) == 0
        &&& forall|i: int| 0 <= i < 8 ==> C::elem(&#[trigger] self.ipa_proof.cl[i]) == C::zero()
        &&& forall|i: int| 0 <= i < 8 ==> C::elem(&#[trigger] self.ipa_proof.cr[i]) == C::zero()
    }

    /// The proof of the right shape that holds zeros throughout.
    pub fn zeroed() -> (r: Self)
        ensures
            r.is_zeroed(),
    {
        let zero = C::point_zero();
        MultiPointProof {
            ipa_proof: IpaProof {
                cl: [zero;8],
                cr: [zero;8],
                final_evaluation: scalar_zero::<C>(),
            },
            g_x: zero,
        }
    }
}

impl<C: Curve> TrieProof<C> {
    /// The proof of the right shape that holds nothing.
    pub fn zeroed() -> (r: Self)
        ensures
            r.commitments_by_path@.len() == 0,
            r.multiproof.is_zeroed(),
    {
        TrieProof { commitments_by_path: Vec::new(), multiproof: MultiPointProof::zeroed() }
    }
}

} // verus!
