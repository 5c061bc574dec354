//! The leaf (extension) node: one stem, up to 256 values, and the three
//! commitments that cover them.
use vstd::prelude::*;
use crate::commitment::{commit_sparse, lemma_sum_seq_push, sparse_terms, Commitment};
use crate::curve::{
    field_sub, lemma_basis_mul_delta, lemma_sum_seq_update, lemma_sum_seq_zeros, scalar_one,
    scalar_zero, sum_seq, Curve,
};
use crate::error::VerkleTrieError;
use crate::model::{apply_writes, leaf_wf, LeafModel};
use crate::primitives::{
    option_value_equals, option_view, stem_scalar, value_high, value_low, Stem, TrieValue,
};
use crate::state_write::{first_mismatch, mismatch_at, StemStateWrite, SuffixWrite};

verus! {

/// Basis index of the extension marker in a leaf's commitment.
pub const EXTENSION_MARKER_INDEX: usize = 0;

/// Basis index of the stem in a leaf's commitment.
pub const EXTENSION_STEM_INDEX: usize = 1;

/// Basis index of the first half commitment in a leaf's commitment.
pub const EXTENSION_C1_INDEX: usize = 2;

/// Basis index of the second half commitment in a leaf's commitment.
pub const EXTENSION_C2_INDEX: usize = 3;

/// The value slots as optional byte strings.
pub open spec fn values_view(children: Seq<Option<TrieValue>>) -> Seq<Option<Seq<u8>>> {
    Seq::new(children.len(), |i: int| option_view(children[i]))
}

/// The scalar that the slot's value contributes to basis point `j` of its
/// half commitment: the low half of the value at even `j`, the high half at
/// odd `j`, and zero for an empty slot.
pub open spec fn slot_scalar(order: nat, slot: Option<Seq<u8>>, j: int) -> nat {
    match slot {
        Some(v) => if j % 2 == 0 {
            value_low(order, v)
        } else {
            value_high(order, v)
        },
        None => 0,
    }
}

/// Term `j` of half commitment `half` (0 for `c1`, 1 for `c2`): slot
/// `128 · half + j / 2` at basis point `j`. An empty slot contributes nothing.
pub open spec fn half_term<C: Curve>(values: Seq<Option<Seq<u8>>>, half: int, j: int) -> C::Elem {
    match values[128 * half + j / 2] {
        Some(v) => C::basis_mul(j, slot_scalar(C::order(), Some(v), j)),
        None => C::zero(),
    }
}

/// The 256 terms of half commitment `half`.
pub open spec fn half_terms<C: Curve>(values: Seq<Option<Seq<u8>>>, half: int) -> Seq<C::Elem> {
    Seq::new(256, |j: int| half_term::<C>(values, half, j))
}

/// The half commitment over 128 slots:
/// the sum over the present slots `i` of `G[2i] · low_i + G[2i+1] · high_i`.
pub open spec fn half_elem<C: Curve>(values: Seq<Option<Seq<u8>>>, half: int) -> C::Elem {
    sum_seq::<C>(half_terms::<C>(values, half))
}

/// The four terms of a leaf's commitment: marker, stem, and the images of `c1` and `c2`.
pub open spec fn leaf_terms<C: Curve>(stem: Seq<u8>, c1: C::Elem, c2: C::Elem) -> Seq<C::Elem> {
    seq![
        C::basis_mul(0, 1nat % C::order()),
        C::basis_mul(1, stem_scalar(C::order(), stem)),
        C::basis_mul(2, C::hash(c1)),
        C::basis_mul(3, C::hash(c2)),
    ]
}

/// The commitment of a leaf: `G[0] · 1 + G[1] · stem + G[2] · hash(c1) + G[3] · hash(c2)`.
pub open spec fn leaf_elem<C: Curve>(stem: Seq<u8>, c1: C::Elem, c2: C::Elem) -> C::Elem {
    sum_seq::<C>(leaf_terms::<C>(stem, c1, c2))
}

/// The scalars of a slot are below the order.
pub proof fn lemma_slot_scalar_below_order<C: Curve>(slot: Option<Seq<u8>>, j: int)
    ensures
        slot_scalar(C::order(), slot, j) < C::order(),
{
    C::lemma_order_bounds();
    match slot {
        Some(v) => {
            vstd::arithmetic::div_mod::lemma_mod_bound(
                crate::curve::le_value(v.subrange(0, 16).push(1u8)) as int,
                C::order() as int,
            );
            vstd::arithmetic::div_mod::lemma_mod_bound(
                crate::curve::le_value(v.subrange(16, 32)) as int,
                C::order() as int,
            );
        },
        None => {},
    }
}

/// What storing `value` in slot `index` does to the two half commitments:
/// the half of the slot gains the two basis points of the slot times the
/// change of the low and of the high scalar; the other half stays.
pub proof fn lemma_half_after_set<C: Curve>(
    values: Seq<Option<Seq<u8>>>,
    index: int,
    value: Seq<u8>,
)
    requires
        values.len() == 256,
        0 <= index < 256,
    ensures
        ({
            let half = index / 128;
            let low = 2 * (index % 128);
            let after = values.update(index, Some(value));
            let order = C::order();
            &&& half_elem::<C>(after, half) == C::sum(
                half_elem::<C>(values, half),
                C::sum(
                    C::basis_mul(
                        low,
                        field_sub(
                            order,
                            slot_scalar(order, Some(value), low),
                            slot_scalar(order, values[index], low),
                        ),
                    ),
                    C::basis_mul(
                        low + 1,
                        field_sub(
                            order,
                            slot_scalar(order, Some(value), low + 1),
                            slot_scalar(order, values[index], low + 1),
                        ),
                    ),
                ),
            )
            &&& half_elem::<C>(after, 1 - half) == half_elem::<C>(values, 1 - half)
        }),
{
    let half = index / 128;
    let low = 2 * (index % 128);
    let high = low + 1;
    let after = values.update(index, Some(value));
    let order = C::order();
    let old_low = slot_scalar(order, values[index], low);
    let old_high = slot_scalar(order, values[index], high);
    let new_low = slot_scalar(order, Some(value), low);
    let new_high = slot_scalar(order, Some(value), high);
    let d_low = C::basis_mul(low, field_sub(order, new_low, old_low));
    let d_high = C::basis_mul(high, field_sub(order, new_high, old_high));
    let terms = half_terms::<C>(values, half);
    let step = terms.update(low, C::sum(terms[low], d_low));
    let done = step.update(high, C::sum(step[high], d_high));
    lemma_slot_scalar_below_order::<C>(values[index], low);
    lemma_slot_scalar_below_order::<C>(values[index], high);
    lemma_slot_scalar_below_order::<C>(Some(value), low);
    lemma_slot_scalar_below_order::<C>(Some(value), high);
    lemma_basis_mul_delta::<C>(low, old_low, new_low);
    lemma_basis_mul_delta::<C>(high, old_high, new_high);
    C::lemma_basis_mul_zero(low);
    C::lemma_basis_mul_zero(high);
    assert(128 * half + low / 2 == index);
    assert(128 * half + high / 2 == index);
    assert(terms[low] == C::basis_mul(low, old_low));
    assert(terms[high] == C::basis_mul(high, old_high));
    let wanted = half_terms::<C>(after, half);
    assert forall|j: int| 0 <= j < 256 implies wanted[j] == done[j] by {
        if j != low && j != high {
            assert(128 * half + j / 2 != index);
        }
    }
    assert(wanted =~= done);
    lemma_sum_seq_update::<C>(terms, low, d_low);
    lemma_sum_seq_update::<C>(step, high, d_high);
    C::lemma_sum_associative(sum_seq::<C>(terms), d_low, d_high);
    let other = half_terms::<C>(values, 1 - half);
    let other_after = half_terms::<C>(after, 1 - half);
    assert forall|j: int| 0 <= j < 256 implies other_after[j] == other[j] by {
        assert(128 * (1 - half) + j / 2 != index);
    }
    assert(other_after =~= other);
}

/// What a change of one half commitment does to the leaf's commitment: it
/// gains `G[2]` (for `c1`) or `G[3]` (for `c2`) times the change of the
/// half commitment's image.
pub proof fn lemma_leaf_after_half_change<C: Curve>(
    stem: Seq<u8>,
    c1: C::Elem,
    c2: C::Elem,
    after: C::Elem,
    half: int,
)
    requires
        half == 0 || half == 1,
    ensures
        half == 0 ==> leaf_elem::<C>(stem, after, c2) == C::sum(
            leaf_elem::<C>(stem, c1, c2),
            C::basis_mul(2, field_sub(C::order(), C::hash(after), C::hash(c1))),
        ),
        half == 1 ==> leaf_elem::<C>(stem, c1, after) == C::sum(
            leaf_elem::<C>(stem, c1, c2),
            C::basis_mul(3, field_sub(C::order(), C::hash(after), C::hash(c2))),
        ),
{
    let terms = leaf_terms::<C>(stem, c1, c2);
    C::lemma_hash_below_order(c1);
    C::lemma_hash_below_order(c2);
    C::lemma_hash_below_order(after);
    if half == 0 {
        let delta = C::basis_mul(2, field_sub(C::order(), C::hash(after), C::hash(c1)));
        lemma_basis_mul_delta::<C>(2, C::hash(c1), C::hash(after));
        lemma_sum_seq_update::<C>(terms, 2, delta);
        assert(leaf_terms::<C>(stem, after, c2) =~= terms.update(2, C::sum(terms[2], delta)));
    } else {
        let delta = C::basis_mul(3, field_sub(C::order(), C::hash(after), C::hash(c2)));
        lemma_basis_mul_delta::<C>(3, C::hash(c2), C::hash(after));
        lemma_sum_seq_update::<C>(terms, 3, delta);
        assert(leaf_terms::<C>(stem, c1, after) =~= terms.update(3, C::sum(terms[3], delta)));
    }
}

/// A leaf without values commits to its marker and its stem alone.
pub proof fn lemma_empty_leaf_elem<C: Curve>(stem: Seq<u8>)
    ensures
        leaf_elem::<C>(stem, C::zero(), C::zero()) == C::sum(
            C::basis_mul(0, 1nat % C::order()),
            C::basis_mul(1, stem_scalar(C::order(), stem)),
        ),
{
    let marker = C::basis_mul(0, 1nat % C::order());
    let stem_term = C::basis_mul(1, stem_scalar(C::order(), stem));
    let none = Seq::<C::Elem>::empty();
    let built = none.push(marker).push(stem_term).push(C::zero()).push(C::zero());
    C::lemma_order_bounds();
    C::lemma_hash_zero();
    C::lemma_basis_mul_zero(2);
    C::lemma_basis_mul_zero(3);
    assert(leaf_terms::<C>(stem, C::zero(), C::zero()) =~= built);
    lemma_sum_seq_push::<C>(none, marker);
    lemma_sum_seq_push::<C>(none.push(marker), stem_term);
    lemma_sum_seq_push::<C>(none.push(marker).push(stem_term), C::zero());
    lemma_sum_seq_push::<C>(none.push(marker).push(stem_term).push(C::zero()), C::zero());
    C::lemma_sum_commutative(C::zero(), marker);
    C::lemma_sum_zero(marker);
    C::lemma_sum_zero(C::sum(marker, stem_term));
}

/// A leaf: all values whose keys share one stem.
pub struct LeafNode<C: Curve> {
    pub(crate) marker: u64,
    pub(crate) stem: Stem,
    pub(crate) commitment: Commitment<C>,
    pub(crate) c1: C::Point,
    pub(crate) c2: C::Point,
    pub(crate) children: [Option<TrieValue>; 256],
}

/// The commitment to 128 of the 256 slots: the first 128 for `half` 0, the
/// last 128 for `half` 1.
fn half_commitment<C: Curve>(children: &[Option<TrieValue>; 256], half: usize) -> (r: C::Point)
    requires
        half < 2,
    ensures
        C::elem(&r) == half_elem::<C>(values_view(children@), half as int),
{
    let ghost values = values_view(children@);
    let ghost dense = half_terms::<C>(values, half as int);
    let mut entries: Vec<(usize, C::Scalar)> = Vec::new();
    let mut suffix: usize = 0;
    while suffix < 128
        invariant
            suffix <= 128,
            half < 2,
            values == values_view(children@),
            dense == half_terms::<C>(values, half as int),
            forall|k: int| 0 <= k < entries@.len() ==> (#[trigger] entries@[k]).0 < 256,
            sum_seq::<C>(sparse_terms::<C>(entries@)) == sum_seq::<C>(
                dense.subrange(0, 2 * suffix as int),
            ),
        decreases 128 - suffix,
    {
        let ghost before = sparse_terms::<C>(entries@);
        let ghost prefix = dense.subrange(0, 2 * suffix as int);
        proof {
            assert(dense.subrange(0, 2 * suffix as int + 2) =~= prefix.push(
                dense[2 * suffix as int],
            ).push(dense[2 * suffix as int + 1]));
            lemma_sum_seq_push::<C>(prefix, dense[2 * suffix as int]);
            lemma_sum_seq_push::<C>(
                prefix.push(dense[2 * suffix as int]),
                dense[2 * suffix as int + 1],
            );
            assert(128 * half + (2 * suffix) / 2 == 128 * half + suffix);
            assert(128 * half + (2 * suffix + 1) / 2 == 128 * half + suffix);
        }
        match children[128 * half + suffix] {
            Some(child) => {
                let (low, high) = child.split::<C>();
                entries.push((2 * suffix, low));
                proof {
                    assert(sparse_terms::<C>(entries@) =~= before.push(dense[2 * suffix as int]));
                    lemma_sum_seq_push::<C>(before, dense[2 * suffix as int]);
                }
                let ghost middle = sparse_terms::<C>(entries@);
                entries.push((2 * suffix + 1, high));
                proof {
                    assert(sparse_terms::<C>(entries@) =~= middle.push(
                        dense[2 * suffix as int + 1],
                    ));
                    lemma_sum_seq_push::<C>(middle, dense[2 * suffix as int + 1]);
                }
            },
            None => {
                proof {
                    C::lemma_sum_zero(sum_seq::<C>(prefix));
                }
            },
        }
        suffix += 1;
    }
    proof {
        assert(dense.subrange(0, 256) =~= dense);
    }
    commit_sparse::<C>(entries.as_slice())
}

/// Checks what the writes expect of the slots, suffix by suffix from 0 up,
/// and reports the first slot that holds something else.
pub fn check_expectations(
    stem: &Stem,
    children: &[Option<TrieValue>; 256],
    state_write: &StemStateWrite,
) -> (r: Result<(), VerkleTrieError>)
    ensures
        match r {
            Ok(_) => first_mismatch(values_view(children@), state_write.expectations(), 0) is None,
            Err(e) => wrong_old_value(
                e,
                stem@,
                values_view(children@),
                state_write.expectations(),
            ),
        },
{
    let ghost values = values_view(children@);
    let ghost expected = state_write.expectations();
    let mut i: usize = 0;
    while i < 256
        invariant
            i <= 256,
            values == values_view(children@),
            expected == state_write.expectations(),
            first_mismatch(values, expected, 0) == first_mismatch(values, expected, i as int),
        decreases 256 - i,
    {
        match state_write.write_at(i as u8) {
            Some(write) => {
                match write.expected_old {
                    Some(wanted) => {
                        if !option_value_equals(&wanted, &children[i]) {
                            assert(mismatch_at(values, expected, i as int));
                            return Err(
                                VerkleTrieError::WrongOldValue {
                                    stem: *stem,
                                    index: i as u8,
                                    expected: wanted,
                                    actual: children[i],
                                },
                            );
                        }
                    },
                    None => {},
                }
            },
            None => {},
        }
        assert(!mismatch_at(values, expected, i as int));
        i += 1;
    }
    Ok(())
}

/// `e` reports the first slot of `stem` that holds something else than expected.
pub open spec fn wrong_old_value(
    e: VerkleTrieError,
    stem: Seq<u8>,
    values: Seq<Option<Seq<u8>>>,
    expected: Map<u8, Option<Seq<u8>>>,
) -> bool {
    &&& first_mismatch(values, expected, 0) matches Some(first)
    &&& e matches VerkleTrieError::WrongOldValue { stem: s, index, expected: wanted, actual }
    &&& s@ == stem
    &&& index == first
    &&& option_view(wanted) == expected[index]
    &&& option_view(actual) == values[first]
}

/// What `LeafNode::update` returns for a leaf that stores `leaf`.
pub open spec fn leaf_update_result(
    r: Result<(), VerkleTrieError>,
    leaf: LeafModel,
    state_write: &StemStateWrite,
) -> bool {
    if leaf.stem != state_write.stem@ {
        r matches Err(VerkleTrieError::UnexpectedStem { expected, actual }) && expected@
            == leaf.stem && actual@ == state_write.stem@
    } else {
        match r {
            Ok(_) => first_mismatch(leaf.values, state_write.expectations(), 0) is None,
            Err(e) => wrong_old_value(e, leaf.stem, leaf.values, state_write.expectations()),
        }
    }
}

impl<C: Curve> LeafNode<C> {
    /// What the leaf stores.
    pub open(crate) spec fn model(&self) -> LeafModel {
        LeafModel { stem: self.stem@, values: values_view(self.children@) }
    }

    /// The group element of the leaf's commitment.
    pub open(crate) spec fn commitment_elem(&self) -> C::Elem {
        self.commitment.elem()
    }

    /// The group element of the commitment to the first 128 slots.
    pub open(crate) spec fn c1_elem(&self) -> C::Elem {
        C::elem(&self.c1)
    }

    /// The group element of the commitment to the last 128 slots.
    pub open(crate) spec fn c2_elem(&self) -> C::Elem {
        C::elem(&self.c2)
    }

    /// The leaf's commitments are those of what it stores: `c1` and `c2`
    /// are the sparse sums over the present slots of their halves, and the
    /// commitment is the four-term sum over marker, stem and the images of
    /// `c1` and `c2`.
    pub open(crate) spec fn wf(&self) -> bool {
        &&& self.marker == 1
        &&& self.commitment.wf()
        &&& C::elem(&self.c1) == half_elem::<C>(self.model().values, 0)
        &&& C::elem(&self.c2) == half_elem::<C>(self.model().values, 1)
        &&& self.commitment.elem() == leaf_elem::<C>(
            self.stem@,
            C::elem(&self.c1),
            C::elem(&self.c2),
        )
    }

    /// What a leaf stores is well-formed.
    pub proof fn lemma_model_wf(&self)
        ensures
            leaf_wf(self.model()),
    {
    }

    /// The leaf for `stem` that holds no value: `c1` and `c2` commit to
    /// nothing, and the commitment is `G[0] · 1 + G[1] · stem`.
    pub fn new(stem: Stem) -> (r: Self)
        ensures
            r.wf(),
            r.model() == (LeafModel { stem: stem@, values: crate::model::empty_values() }),
            r.c1_elem() == C::zero(),
            r.c2_elem() == C::zero(),
            r.commitment_elem() == C::sum(
                C::basis_mul(0, 1nat % C::order()),
                C::basis_mul(1, stem_scalar(C::order(), stem@)),
            ),
    {
        let children: [Option<TrieValue>; 256] = [None;256];
        let r = Self::new_with_childrent(stem, children);
        proof {
            let values = crate::model::empty_values();
            assert(r.model().values =~= values);
            lemma_sum_seq_zeros::<C>(half_terms::<C>(values, 0));
            lemma_sum_seq_zeros::<C>(half_terms::<C>(values, 1));
            lemma_empty_leaf_elem::<C>(stem@);
        }
        r
    }

    /// The leaf for `stem` that holds `children`.
    pub fn new_with_childrent(stem: Stem, children: [Option<TrieValue>; 256]) -> (r: Self)
        ensures
            r.wf(),
            r.model() == (LeafModel { stem: stem@, values: values_view(children@) }),
    {
        let c1 = half_commitment::<C>(&children, 0);
        let c2 = half_commitment::<C>(&children, 1);
        let marker: u64 = 1;
        let entries: [(usize, C::Scalar); 4] = [
            (EXTENSION_MARKER_INDEX, scalar_one::<C>()),
            (EXTENSION_STEM_INDEX, stem.to_scalar::<C>()),
            (EXTENSION_C1_INDEX, C::map_to_scalar_field(&c1)),
            (EXTENSION_C2_INDEX, C::map_to_scalar_field(&c2)),
        ];
        let point = commit_sparse::<C>(&entries);
        proof {
            assert(sparse_terms::<C>(entries@) =~= leaf_terms::<C>(
                stem@,
                C::elem(&c1),
                C::elem(&c2),
            ));
        }
        LeafNode { marker, stem, commitment: Commitment::new(point), c1, c2, children }
    }

    /// The marker of the leaf, which is 1.
    pub fn version(&self) -> (r: u64)
        ensures
            self.wf() ==> r == 1,
    {
        self.marker
    }

    /// The stem of the leaf.
    pub fn stem(&self) -> (r: &Stem)
        ensures
            r@ == self.model().stem,
    {
        &self.stem
    }

    /// The commitment of the leaf.
    pub fn commitment(&self) -> (r: C::Point)
        ensures
            C::elem(&r) == self.commitment_elem(),
    {
        *self.commitment.commitment()
    }

    /// The image of the leaf's commitment in the scalar field.
    pub fn commitment_hash(&mut self) -> (r: C::Scalar)
        requires
            old(self).wf(),
        ensures
            final(self).wf(),
            final(self).model() == old(self).model(),
            final(self).commitment_elem() == old(self).commitment_elem(),
            C::scalar_value(&r) == C::hash(old(self).commitment_elem()),
    {
        self.commitment.commitment_hash()
    }

    /// Stores `child` in slot `index`.
    pub fn set(&mut self, index: usize, child: TrieValue)
        requires
            old(self).wf(),
            index < 256,
        ensures
            final(self).wf(),
            final(self).model() == (LeafModel {
                stem: old(self).model().stem,
                values: old(self).model().values.update(index as int, Some(child@)),
            }),
    {
        let ghost before = self.model().values;
        let ghost old_c1 = C::elem(&self.c1);
        let ghost old_c2 = C::elem(&self.c2);
        let (new_low, new_high) = child.split::<C>();
        let (old_low, old_high) = match self.children[index] {
            Some(old_child) => old_child.split::<C>(),
            None => (scalar_zero::<C>(), scalar_zero::<C>()),
        };
        self.children[index] = Some(child);
        let suffix_index = index % 128;
        let low = C::commit_single((2 * suffix_index) as u8, &C::scalar_sub(&new_low, &old_low));
        let high = C::commit_single(
            (2 * suffix_index + 1) as u8,
            &C::scalar_sub(&new_high, &old_high),
        );
        let diff = C::point_add(&low, &high);
        proof {
            assert(self.model().values =~= before.update(index as int, Some(child@)));
            assert(before[index as int] == option_view(old(self).children@[index as int]));
            lemma_half_after_set::<C>(before, index as int, child@);
        }
        if index < 128 {
            let old_hash = C::map_to_scalar_field(&self.c1);
            self.c1 = C::point_add(&self.c1, &diff);
            let new_hash = C::map_to_scalar_field(&self.c1);
            let delta = C::commit_single(
                EXTENSION_C1_INDEX as u8,
                &C::scalar_sub(&new_hash, &old_hash),
            );
            self.commitment.add_delta(&delta);
            proof {
                lemma_leaf_after_half_change::<C>(self.stem@, old_c1, old_c2, C::elem(&self.c1), 0);
            }
        } else {
            let old_hash = C::map_to_scalar_field(&self.c2);
            self.c2 = C::point_add(&self.c2, &diff);
            let new_hash = C::map_to_scalar_field(&self.c2);
            let delta = C::commit_single(
                EXTENSION_C2_INDEX as u8,
                &C::scalar_sub(&new_hash, &old_hash),
            );
            self.commitment.add_delta(&delta);
            proof {
                lemma_leaf_after_half_change::<C>(self.stem@, old_c1, old_c2, C::elem(&self.c2), 1);
            }
        }
    }

    /// Applies the writes of `state_write`, all or none.
    ///
    /// Fails with `UnexpectedStem` if the writes are for another stem, and
    /// with `WrongOldValue` for the least suffix whose slot holds something
    /// else than its write expects. A failed update changes nothing.
    pub fn update(&mut self, state_write: &StemStateWrite) -> (r: Result<(), VerkleTrieError>)
        requires
            old(self).wf(),
        ensures
            final(self).wf(),
            leaf_update_result(r, old(self).model(), state_write),
            r is Ok ==> final(self).model() == (LeafModel {
                stem: old(self).model().stem,
                values: apply_writes(old(self).model().values, state_write.new_values()),
            }),
            r is Err ==> final(self).model() == old(self).model(),
    {
        if !self.stem.equals(&state_write.stem) {
            return Err(
                VerkleTrieError::UnexpectedStem { expected: self.stem, actual: state_write.stem },
            );
        }
        match check_expectations(&self.stem, &self.children, state_write) {
            Ok(_) => {},
            Err(e) => {
                return Err(e);
            },
        }
        self.apply(state_write);
        Ok(())
    }

    /// Stores the new value of every write of `state_write`.
    pub(crate) fn apply(&mut self, state_write: &StemStateWrite)
        requires
            old(self).wf(),
        ensures
            final(self).wf(),
            final(self).model() == (LeafModel {
                stem: old(self).model().stem,
                values: apply_writes(old(self).model().values, state_write.new_values()),
            }),
    {
        let ghost before = self.model();
        let ghost writes = state_write.new_values();
        let mut i: usize = 0;
        while i < 256
            invariant
                i <= 256,
                self.wf(),
                writes == state_write.new_values(),
                self.model().stem == before.stem,
                before.values.len() == 256,
                self.model().values == Seq::new(
                    256,
                    |k: int|
                        if k < i && writes.contains_key(k as u8) {
                            Some(writes[k as u8])
                        } else {
                            before.values[k]
                        },
                ),
            decreases 256 - i,
        {
            let ghost so_far = self.model().values;
            match state_write.write_at(i as u8) {
                Some(write) => {
                    self.set(i, write.new_value);
                    assert(self.model().values =~= Seq::new(
                        256,
                        |k: int|
                            if k < i + 1 && writes.contains_key(k as u8) {
                                Some(writes[k as u8])
                            } else {
                                before.values[k]
                            },
                    ));
                },
                None => {
                    assert(so_far =~= Seq::new(
                        256,
                        |k: int|
                            if k < i + 1 && writes.contains_key(k as u8) {
                                Some(writes[k as u8])
                            } else {
                                before.values[k]
                            },
                    ));
                },
            }
            i += 1;
        }
        assert(self.model().values =~= apply_writes(before.values, writes));
    }

    /// The value in slot `index`.
    pub fn get(&self, index: usize) -> (r: Option<&TrieValue>)
        requires
            index < 256,
        ensures
            match r {
                Some(v) => self.model().values[index as int] == Some(v@),
                None => self.model().values[index as int] is None,
            },
    {
        self.children[index].as_ref()
    }
}

} // verus!
