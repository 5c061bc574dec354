//! Content keys and content values: what the overlay network stores, and under which key.
use vstd::prelude::*;
use crate::curve::Curve;
use crate::portal::nodes::{
    BranchBundleNode, BranchBundleNodeWithProof, BranchFragmentNode, BranchFragmentNodeWithProof,
    LeafBundleNode, LeafBundleNodeWithProof, LeafFragmentNode, LeafFragmentNodeWithProof,
};
use crate::primitives::Stem;

verus! {

/// The key of a fragment of a leaf: the leaf's stem and the fragment's commitment.
pub struct LeafFragmentKey<C: Curve> {
    pub stem: Stem,
    pub commitment: C::Point,
}

/// The key under which a node is stored.
pub enum VerkleContentKey<C: Curve> {
    /// The bundle of a branch or of a leaf, by the node's commitment.
    Bundle(C::Point),
    /// A fragment of a branch, by the fragment's commitment.
    BranchFragment(C::Point),
    /// A fragment of a leaf.
    LeafFragment(LeafFragmentKey<C>),
}

/// A node as it is stored.
pub enum PortalVerkleNode<C: Curve> {
    BranchBundle(BranchBundleNode<C>),
    BranchFragment(BranchFragmentNode<C>),
    LeafBundle(LeafBundleNode<C>),
    LeafFragment(LeafFragmentNode),
}

/// A node as it is offered: with what proves that it belongs to a state root.
pub enum PortalVerkleNodeWithProof<C: Curve> {
    BranchBundle(BranchBundleNodeWithProof<C>),
    BranchFragment(BranchFragmentNodeWithProof<C>),
    LeafBundle(LeafBundleNodeWithProof<C>),
    LeafFragment(LeafFragmentNodeWithProof<C>),
}

/// What is stored under a content key.
pub enum VerkleContentValue<C: Curve> {
    Node(PortalVerkleNode<C>),
    NodeWithProof(PortalVerkleNodeWithProof<C>),
}

} // verus!
