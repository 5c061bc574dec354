//! The nodes of the trie.
use vstd::prelude::*;
use crate::curve::{scalar_zero, Curve};
use crate::model::NodeModel;
use crate::nodes::branch::BranchNode;
use crate::nodes::leaf::LeafNode;

pub mod branch;
pub mod leaf;

verus! {

/// A child slot of a branch: nothing, a leaf, or a branch one level down.
pub enum Node<C: Curve> {
    Empty,
    Branch(Box<BranchNode<C>>),
    Leaf(Box<LeafNode<C>>),
}

impl<C: Curve> Node<C> {
    /// What the node stores.
    pub open(crate) spec fn model(self) -> NodeModel
        decreases self,
    {
        match self {
            Node::Empty => NodeModel::Empty,
            Node::Branch(branch) => NodeModel::Branch(branch.model()),
            Node::Leaf(leaf) => NodeModel::Leaf(leaf.model()),
        }
    }

    /// The group element of the node's commitment; the neutral element for
    /// an empty slot.
    pub open(crate) spec fn commitment_elem(self) -> C::Elem {
        match self {
            Node::Empty => C::zero(),
            Node::Branch(branch) => branch.commitment_elem(),
            Node::Leaf(leaf) => leaf.commitment_elem(),
        }
    }

    /// The commitments in and below the node are those of what is stored
    /// there, and a branch in the node is at `depth`.
    pub open(crate) spec fn inv_at(self, depth: int) -> bool
        decreases self,
    {
        match self {
            Node::Empty => true,
            Node::Branch(branch) => branch.inv_at(depth),
            Node::Leaf(leaf) => leaf.wf(),
        }
    }

    /// Whether the slot holds nothing.
    pub fn is_empty(&self) -> (r: bool)
        ensures
            r == (self.model() is Empty),
    {
        match self {
            Node::Empty => true,
            _ => false,
        }
    }

    /// The node's commitment; the zero point for an empty slot.
    pub fn commitment(&self) -> (r: C::Point)
        ensures
            C::elem(&r) == self.commitment_elem(),
    {
        match self {
            Node::Empty => C::point_zero(),
            Node::Branch(branch) => *branch.commitment(),
            Node::Leaf(leaf) => leaf.commitment(),
        }
    }

    /// The image of the node's commitment in the scalar field; zero for an
    /// empty slot.
    pub(crate) fn commitment_hash(&mut self, Ghost(depth): Ghost<int>) -> (r: C::Scalar)
        requires
            old(self).inv_at(depth),
        ensures
            final(self).inv_at(depth),
            final(self).model() == old(self).model(),
            final(self).commitment_elem() == old(self).commitment_elem(),
            C::scalar_value(&r) == C::hash(old(self).commitment_elem()),
    {
        match self {
            Node::Empty => {
                proof {
                    C::lemma_hash_zero();
                }
                scalar_zero::<C>()
            },
            Node::Branch(branch) => branch.commitment_hash(),
            Node::Leaf(leaf) => leaf.commitment_hash(),
        }
    }
}

} // verus!
