//! The algebra that the trie commits with: scalars, a commutative group
//! whose elements the scalars multiply, and 256 fixed basis points.
//!
//! The trie never looks inside a point or a scalar. Everything it needs is
//! the interface [`Curve`]; the laws that implementations owe are part of it.
//! The trie is meant for the Banderwagon group with its scalar field; the
//! crate itself brings [`crate::word_curve::WordCurve`], which needs no
//! elliptic curve.
use vstd::prelude::*;

verus! {

/// The natural numbers of the interface's mathematical description, under a
/// name that an implementation in ordinary Rust can write in a signature.
pub type Nat = nat;

/// The integers of the interface's mathematical description.
pub type Int = int;

/// The byte strings of the interface's mathematical description.
pub type ByteSeq = Seq<u8>;

/// Number of basis points, which is also the width of a trie node.
pub const BASIS_SIZE: usize = 256;

/// The number that a byte string spells when read least significant byte first.
pub open spec fn le_value(bytes: Seq<u8>) -> nat
    decreases bytes.len(),
{
    if bytes.len() == 0 {
        0
    } else {
        bytes[0] as nat + 256 * le_value(bytes.drop_first())
    }
}

/// A commutative group with a fixed basis `G[0..256]`, the scalars modulo
/// its order, and the map from group elements to scalars.
///
/// `Elem` is the group element as a mathematical value; `Point` and `Scalar`
/// are what executable code holds. Two points may differ as data and still
/// stand for the same element, so every statement goes through `elem`.
///
/// The functions in the first part describe the group; the lemmas are the
/// laws that the description must obey; the executable functions at the end
/// must compute what the description says. For an implementation inside
/// this crate the verifier checks all three. An implementation in a crate
/// that is compiled without the verifier gives the description and the laws
/// empty bodies, and its executable functions are taken on trust.
pub trait Curve: Sized {
    type Point: Copy;

    type Scalar: Copy;

    type Elem;

    /// The order of the group, which is the modulus of the scalars.
    spec fn order() -> nat;

    /// The scalar that `s` holds, as a number below `order()`.
    spec fn scalar_value(s: &Self::Scalar) -> nat;

    /// The group element that `p` stands for.
    spec fn elem(p: &Self::Point) -> Self::Elem;

    /// The neutral element.
    spec fn zero() -> Self::Elem;

    /// The group operation.
    spec fn sum(a: Self::Elem, b: Self::Elem) -> Self::Elem;

    /// `scalar · G[index]`.
    spec fn basis_mul(index: int, scalar: nat) -> Self::Elem;

    /// The scalar that an element is mapped to when a parent commits to it.
    spec fn hash(e: Self::Elem) -> nat;

    /// The 32 bytes by which an element is known outside.
    spec fn encoding(e: Self::Elem) -> Seq<u8>;

    /// The order is positive and at most 2^256, so that a scalar fits 32 bytes.
    proof fn lemma_order_bounds()
        ensures
            0 < Self::order() <= 0x1_0000_0000_0000_0000_0000_0000_0000_0000_0000_0000_0000_0000_0000_0000_0000_0000,
    ;

    /// A scalar is a number below the order.
    proof fn lemma_scalar_below_order(s: &Self::Scalar)
        ensures
            Self::scalar_value(s) < Self::order(),
    ;

    /// The group operation is commutative.
    proof fn lemma_sum_commutative(a: Self::Elem, b: Self::Elem)
        ensures
            Self::sum(a, b) == Self::sum(b, a),
    ;

    /// The group operation is associative.
    proof fn lemma_sum_associative(a: Self::Elem, b: Self::Elem, c: Self::Elem)
        ensures
            Self::sum(Self::sum(a, b), c) == Self::sum(a, Self::sum(b, c)),
    ;

    /// The neutral element is neutral.
    proof fn lemma_sum_zero(a: Self::Elem)
        ensures
            Self::sum(a, Self::zero()) == a,
    ;

    /// Zero times a basis point is the neutral element.
    proof fn lemma_basis_mul_zero(index: int)
        requires
            0 <= index < BASIS_SIZE,
        ensures
            Self::basis_mul(index, 0) == Self::zero(),
    ;

    /// Scalar multiplication is additive in the scalar, modulo the order.
    proof fn lemma_basis_mul_additive(index: int, s: nat, t: nat)
        requires
            0 <= index < BASIS_SIZE,
            s < Self::order(),
            t < Self::order(),
        ensures
            Self::sum(Self::basis_mul(index, s), Self::basis_mul(index, t)) == Self::basis_mul(
                index,
                (s + t) % Self::order(),
            ),
    ;

    /// The image of an element is a scalar.
    proof fn lemma_hash_below_order(e: Self::Elem)
        ensures
            Self::hash(e) < Self::order(),
    ;

    /// The neutral element is mapped to zero.
    proof fn lemma_hash_zero()
        ensures
            Self::hash(Self::zero()) == 0,
    ;

    /// An encoding is 32 bytes long.
    proof fn lemma_encoding_len(e: Self::Elem)
        ensures
            Self::encoding(e).len() == 32,
    ;

    /// Different elements have different encodings.
    proof fn lemma_encoding_injective(a: Self::Elem, b: Self::Elem)
        requires
            Self::encoding(a) == Self::encoding(b),
        ensures
            a == b,
    ;

    /// The scalar that `bytes` spell in little-endian, reduced modulo the order.
    fn scalar_from_le_bytes(bytes: &[u8]) -> (r: Self::Scalar)
        ensures
            Self::scalar_value(&r) == le_value(bytes@) % Self::order(),
    ;

    /// The canonical little-endian spelling of a scalar.
    fn scalar_to_le_bytes(s: &Self::Scalar) -> (r: [u8; 32])
        ensures
            le_value(r@) == Self::scalar_value(s),
    ;

    /// `a - b` modulo the order.
    fn scalar_sub(a: &Self::Scalar, b: &Self::Scalar) -> (r: Self::Scalar)
        ensures
            Self::scalar_value(&r) == field_sub(
                Self::order(),
                Self::scalar_value(a),
                Self::scalar_value(b),
            ),
    ;

    /// Whether the scalar is zero.
    fn scalar_is_zero(s: &Self::Scalar) -> (r: bool)
        ensures
            r == (Self::scalar_value(s) == 0),
    ;

    /// A point that stands for the neutral element.
    fn point_zero() -> (r: Self::Point)
        ensures
            Self::elem(&r) == Self::zero(),
    ;

    /// A point that stands for the sum of the elements of `a` and `b`.
    fn point_add(a: &Self::Point, b: &Self::Point) -> (r: Self::Point)
        ensures
            Self::elem(&r) == Self::sum(Self::elem(a), Self::elem(b)),
    ;

    /// Whether the point stands for the neutral element.
    fn point_is_zero(p: &Self::Point) -> (r: bool)
        ensures
            r == (Self::elem(p) == Self::zero()),
    ;

    /// Whether two points stand for the same element.
    fn point_eq(a: &Self::Point, b: &Self::Point) -> (r: bool)
        ensures
            r == (Self::elem(a) == Self::elem(b)),
    ;

    /// `scalar · G[index]`.
    fn commit_single(index: u8, scalar: &Self::Scalar) -> (r: Self::Point)
        ensures
            Self::elem(&r) == Self::basis_mul(index as int, Self::scalar_value(scalar)),
    ;

    /// The scalar that the element of `p` is mapped to.
    fn map_to_scalar_field(p: &Self::Point) -> (r: Self::Scalar)
        ensures
            Self::scalar_value(&r) == Self::hash(Self::elem(p)),
    ;

    /// The encoding of the element of `p`.
    fn point_to_bytes(p: &Self::Point) -> (r: [u8; 32])
        ensures
            r@ == Self::encoding(Self::elem(p)),
    ;

    /// The point that `bytes` encode, or `None` if they encode none.
    fn point_from_bytes(bytes: &[u8; 32]) -> (r: Option<Self::Point>)
        ensures
            match r {
                Some(p) => Self::encoding(Self::elem(&p)) == bytes@,
                None => forall|e: Self::Elem| Self::encoding(e) != bytes@,
            },
    ;
}

/// The scalar zero.
pub fn scalar_zero<C: Curve>() -> (r: C::Scalar)
    ensures
        C::scalar_value(&r) == 0,
{
    let empty: [u8; 0] = [];
    let r = C::scalar_from_le_bytes(&empty);
    proof {
        C::lemma_order_bounds();
        assert(empty@.len() == 0);
        assert(le_value(empty@) == 0);
        vstd::arithmetic::div_mod::lemma_small_mod(0, C::order());
    }
    r
}

/// The scalar one.
pub fn scalar_one<C: Curve>() -> (r: C::Scalar)
    ensures
        C::scalar_value(&r) == 1nat % C::order(),
{
    let one: [u8; 1] = [1u8];
    let r = C::scalar_from_le_bytes(&one);
    proof {
        assert(one@.len() == 1);
        assert(one@.drop_first().len() == 0);
        assert(le_value(one@.drop_first()) == 0);
        assert(le_value(one@) == 1);
    }
    r
}

/// What `a - b` is modulo `order`.
pub open spec fn field_sub(order: nat, a: nat, b: nat) -> nat {
    ((a + order - b) % (order as int)) as nat
}

/// Subtracting and adding back gives the first operand.
pub proof fn lemma_field_sub_restores(order: nat, a: nat, b: nat)
    requires
        a < order,
        b < order,
    ensures
        field_sub(order, a, b) < order,
        (b + field_sub(order, a, b)) % order == a,
{
    let n = order as int;
    if a >= b {
        vstd::arithmetic::div_mod::lemma_mod_add_multiples_vanish(a - b, n);
        vstd::arithmetic::div_mod::lemma_small_mod((a - b) as nat, order);
        assert((a + order - b) % n == a - b);
        vstd::arithmetic::div_mod::lemma_small_mod(a, order);
    } else {
        vstd::arithmetic::div_mod::lemma_small_mod((a + order - b) as nat, order);
        assert((a + order - b) % n == a + order - b);
        vstd::arithmetic::div_mod::lemma_mod_add_multiples_vanish(a as int, n);
        vstd::arithmetic::div_mod::lemma_small_mod(a, order);
    }
}

/// Sum of a sequence of group elements, first to last.
pub open spec fn sum_seq<C: Curve>(terms: Seq<C::Elem>) -> C::Elem
    decreases terms.len(),
{
    if terms.len() == 0 {
        C::zero()
    } else {
        C::sum(sum_seq::<C>(terms.drop_last()), terms.last())
    }
}

/// Adding `d` to one term adds `d` to the sum.
pub proof fn lemma_sum_seq_update<C: Curve>(terms: Seq<C::Elem>, i: int, d: C::Elem)
    requires
        0 <= i < terms.len(),
    ensures
        sum_seq::<C>(terms.update(i, C::sum(terms[i], d))) == C::sum(sum_seq::<C>(terms), d),
    decreases terms.len(),
{
    let updated = terms.update(i, C::sum(terms[i], d));
    let head = sum_seq::<C>(terms.drop_last());
    if i == terms.len() - 1 {
        assert(updated.drop_last() =~= terms.drop_last());
        C::lemma_sum_associative(head, terms[i], d);
    } else {
        assert(updated.drop_last() =~= terms.drop_last().update(i, C::sum(terms[i], d)));
        lemma_sum_seq_update::<C>(terms.drop_last(), i, d);
        C::lemma_sum_associative(head, d, terms.last());
        C::lemma_sum_commutative(d, terms.last());
        C::lemma_sum_associative(head, terms.last(), d);
    }
}

/// A sequence of neutral elements sums to the neutral element.
pub proof fn lemma_sum_seq_zeros<C: Curve>(terms: Seq<C::Elem>)
    requires
        forall|i: int| 0 <= i < terms.len() ==> terms[i] == C::zero(),
    ensures
        sum_seq::<C>(terms) == C::zero(),
    decreases terms.len(),
{
    if terms.len() > 0 {
        lemma_sum_seq_zeros::<C>(terms.drop_last());
        C::lemma_sum_zero(C::zero());
    }
}

/// The sum of a concatenation is the sum of the two sums.
pub proof fn lemma_sum_seq_concat<C: Curve>(a: Seq<C::Elem>, b: Seq<C::Elem>)
    ensures
        sum_seq::<C>(a + b) == C::sum(sum_seq::<C>(a), sum_seq::<C>(b)),
    decreases b.len(),
{
    if b.len() == 0 {
        assert(a + b =~= a);
        C::lemma_sum_zero(sum_seq::<C>(a));
    } else {
        assert((a + b).drop_last() =~= a + b.drop_last());
        lemma_sum_seq_concat::<C>(a, b.drop_last());
        C::lemma_sum_associative(sum_seq::<C>(a), sum_seq::<C>(b.drop_last()), b.last());
    }
}

/// Replacing the scalar `old_scalar` at a basis point by `new_scalar` is the
/// same as adding the basis point times their difference.
pub proof fn lemma_basis_mul_delta<C: Curve>(index: int, old_scalar: nat, new_scalar: nat)
    requires
        0 <= index < BASIS_SIZE,
        old_scalar < C::order(),
        new_scalar < C::order(),
    ensures
        C::sum(
            C::basis_mul(index, old_scalar),
            C::basis_mul(index, field_sub(C::order(), new_scalar, old_scalar)),
        ) == C::basis_mul(index, new_scalar),
{
    lemma_field_sub_restores(C::order(), new_scalar, old_scalar);
    C::lemma_basis_mul_additive(index, old_scalar, field_sub(C::order(), new_scalar, old_scalar));
}

} // verus!
