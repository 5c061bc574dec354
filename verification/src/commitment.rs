//! A node's commitment together with the memoised scalar it maps to, and
//! commitments to sparse vectors.
use vstd::prelude::*;
use crate::curve::{sum_seq, Curve, BASIS_SIZE};

verus! {

/// A commitment point and, once it has been asked for, its image in the
/// scalar field. Changing the point forgets the image.
pub struct Commitment<C: Curve> {
    pub(crate) point: C::Point,
    pub(crate) cached_hash: Option<C::Scalar>,
}

impl<C: Curve> Commitment<C> {
    /// The group element committed to.
    pub open(crate) spec fn elem(&self) -> C::Elem {
        C::elem(&self.point)
    }

    /// Whether the image of the commitment is remembered.
    pub open(crate) spec fn remembers_hash(&self) -> bool {
        self.cached_hash is Some
    }

    /// A memoised image is the image of the point held.
    pub open(crate) spec fn wf(&self) -> bool {
        self.cached_hash matches Some(h) ==> C::scalar_value(&h) == C::hash(self.elem())
    }

    /// The commitment to nothing.
    pub fn zero() -> (r: Self)
        ensures
            r.wf(),
            r.elem() == C::zero(),
            !r.remembers_hash(),
    {
        Commitment { point: C::point_zero(), cached_hash: None }
    }

    /// The commitment with the given point.
    pub fn new(point: C::Point) -> (r: Self)
        ensures
            r.wf(),
            r.elem() == C::elem(&point),
            !r.remembers_hash(),
    {
        Commitment { point, cached_hash: None }
    }

    /// The commitment point.
    pub fn commitment(&self) -> (r: &C::Point)
        ensures
            C::elem(r) == self.elem(),
    {
        &self.point
    }

    /// The image of the commitment in the scalar field; computed on the first
    /// call after a change, remembered until the next one.
    pub fn commitment_hash(&mut self) -> (r: C::Scalar)
        requires
            old(self).wf(),
        ensures
            final(self).wf(),
            final(self).remembers_hash(),
            final(self).elem() == old(self).elem(),
            C::scalar_value(&r) == C::hash(old(self).elem()),
    {
        match self.cached_hash {
            Some(h) => h,
            None => {
                let h = C::map_to_scalar_field(&self.point);
                self.cached_hash = Some(h);
                h
            },
        }
    }

    /// Adds `delta` to the commitment.
    pub fn add_delta(&mut self, delta: &C::Point)
        ensures
            final(self).wf(),
            !final(self).remembers_hash(),
            final(self).elem() == C::sum(old(self).elem(), C::elem(delta)),
    {
        self.point = C::point_add(&self.point, delta);
        self.cached_hash = None;
    }

    /// Whether the commitment is the commitment to nothing.
    pub fn is_zero(&self) -> (r: bool)
        ensures
            r == (self.elem() == C::zero()),
    {
        C::point_is_zero(&self.point)
    }
}

/// The terms `scalar · G[index]` of a sparse vector, entry by entry.
pub open spec fn sparse_terms<C: Curve>(entries: Seq<(usize, C::Scalar)>) -> Seq<C::Elem> {
    Seq::new(
        entries.len(),
        |i: int| C::basis_mul(entries[i].0 as int, C::scalar_value(&entries[i].1)),
    )
}

/// Appending a term adds it to the sum.
pub proof fn lemma_sum_seq_push<C: Curve>(terms: Seq<C::Elem>, last: C::Elem)
    ensures
        sum_seq::<C>(terms.push(last)) == C::sum(sum_seq::<C>(terms), last),
{
    assert(terms.push(last).drop_last() =~= terms);
}

/// `scalar · G[index]`.
pub fn commit_single<C: Curve>(index: u8, scalar: &C::Scalar) -> (r: C::Point)
    ensures
        C::elem(&r) == C::basis_mul(index as int, C::scalar_value(scalar)),
{
    C::commit_single(index, scalar)
}

/// The commitment to the vector that holds `scalar` at `index` for each
/// entry `(index, scalar)`: the sum of `scalar · G[index]` over the entries.
pub fn commit_sparse<C: Curve>(entries: &[(usize, C::Scalar)]) -> (r: C::Point)
    requires
        forall|i: int| 0 <= i < entries@.len() ==> (#[trigger] entries@[i]).0 < BASIS_SIZE,
    ensures
        C::elem(&r) == sum_seq::<C>(sparse_terms::<C>(entries@)),
{
    let mut total = C::point_zero();
    let mut i: usize = 0;
    while i < entries.len()
        invariant
            i <= entries@.len(),
            forall|k: int| 0 <= k < entries@.len() ==> (#[trigger] entries@[k]).0 < BASIS_SIZE,
            C::elem(&total) == sum_seq::<C>(sparse_terms::<C>(entries@).subrange(0, i as int)),
        decreases entries@.len() - i,
    {
        let index = entries[i].0;
        let term = C::commit_single(index as u8, &entries[i].1);
        proof {
            let terms = sparse_terms::<C>(entries@);
            assert(terms.subrange(0, i + 1) =~= terms.subrange(0, i as int).push(terms[i as int]));
            lemma_sum_seq_push::<C>(terms.subrange(0, i as int), terms[i as int]);
        }
        total = C::point_add(&total, &term);
        i += 1;
    }
    proof {
        let terms = sparse_terms::<C>(entries@);
        assert(terms.subrange(0, i as int) =~= terms);
    }
    total
}

/// The scalar that a point maps to.
pub fn map_to_scalar_field<C: Curve>(point: &C::Point) -> (r: C::Scalar)
    ensures
        C::scalar_value(&r) == C::hash(C::elem(point)),
{
    C::map_to_scalar_field(point)
}

} // verus!
