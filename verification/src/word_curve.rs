//! The integers modulo 2^256 as a [`Curve`]: group elements and scalars are
//! 256-bit words, the group operation is addition, and the basis points are
//! fixed odd multiples of one word.
//!
//! This is no cryptography: a commitment here hides and binds nothing. It
//! is an implementation of the interface that runs anywhere, for tests and
//! examples of the trie, and it shows that the laws of the interface can be met.
use vstd::prelude::*;
use vstd::arithmetic::div_mod::{
    lemma_add_mod_noop, lemma_fundamental_div_mod_converse, lemma_mod_bound,
    lemma_mod_multiples_vanish, lemma_mul_mod_noop_general, lemma_mul_mod_noop_right,
    lemma_small_mod,
};
use crate::curve::{field_sub, le_value, Curve};
use crate::numbers::{
    lemma_le_value_bound, lemma_le_value_concat, lemma_le_value_push, lemma_le_value_zeros,
    pow256, same_bytes, u64_to_le_bytes32,
};

verus! {

/// The word that the basis points are multiples of.
pub const WORD_BASE: u64 = 0x9E37_79B9_7F4A_7C15;

/// The word that the map to scalars shifts by.
pub const WORD_SHIFT: u64 = 0x2545_F491_4F6C_DD1D;

/// The modulus: 2^256.
pub open spec fn word_modulus() -> nat {
    0x1_0000_0000_0000_0000_0000_0000_0000_0000_0000_0000_0000_0000_0000_0000_0000_0000nat
}

/// The residue of `x` modulo 2^256.
pub open spec fn wmod(x: nat) -> nat {
    x % word_modulus()
}

/// 2^128.
pub open spec fn half_modulus() -> nat {
    0x1_0000_0000_0000_0000_0000_0000_0000_0000nat
}

/// `256^32` is the modulus.
pub proof fn lemma_pow256_32()
    ensures
        pow256(32) == word_modulus(),
        pow256(31) * 256 == word_modulus(),
{
    crate::numbers::lemma_pow256_of_32();
}

/// A 256-bit word as two halves, the low one first.
pub type Word = (u128, u128);

/// The word that the number `n` is modulo 2^256.
pub open spec fn word_of(n: nat) -> Word {
    ((n % half_modulus()) as u128, ((n / half_modulus()) % half_modulus()) as u128)
}

/// The number that a word is.
pub open spec fn word_value(w: Word) -> nat {
    w.0 as nat + half_modulus() * (w.1 as nat)
}

/// A word is the word of its number, and its number is below the modulus.
pub proof fn lemma_word_of_value(w: Word)
    ensures
        word_of(word_value(w)) == w,
        word_value(w) < word_modulus(),
{
    let h = half_modulus() as int;
    let n = word_value(w) as int;
    lemma_fundamental_div_mod_converse(n, h, w.1 as int, w.0 as int);
    lemma_small_mod(w.1 as nat, half_modulus());
    assert(h * (w.1 as int) <= h * (h - 1)) by (nonlinear_arith)
        requires
            0 <= w.1 as int <= h - 1,
            h > 0,
    ;
}

/// The number of the word of `n` is `n` modulo 2^256.
pub proof fn lemma_value_of_word(n: nat)
    ensures
        word_value(word_of(n)) == n % word_modulus(),
{
    let h = half_modulus() as int;
    let m = word_modulus() as int;
    let q = (n as int) / h;
    let lo = (n as int) % h;
    let hi = q % h;
    let top = q / h;
    vstd::arithmetic::div_mod::lemma_fundamental_div_mod(n as int, h);
    vstd::arithmetic::div_mod::lemma_fundamental_div_mod(q, h);
    lemma_mod_bound(n as int, h);
    lemma_mod_bound(q, h);
    assert(q >= 0) by {
        vstd::arithmetic::div_mod::lemma_div_pos_is_pos(n as int, h);
    }
    assert(top >= 0) by {
        vstd::arithmetic::div_mod::lemma_div_pos_is_pos(q, h);
    }
    assert(n == m * top + (lo + h * hi)) by (nonlinear_arith)
        requires
            n == h * q + lo,
            q == h * top + hi,
            m == h * h,
    ;
    assert(lo + h * hi < m) by (nonlinear_arith)
        requires
            0 <= lo < h,
            0 <= hi < h,
            m == h * h,
    ;
    lemma_fundamental_div_mod_converse(n as int, m, top, lo + h * hi);
}

/// A word depends on a number only through its residue modulo 2^256.
pub proof fn lemma_word_of_mod(n: nat)
    ensures
        word_of(n % word_modulus()) == word_of(n),
{
    lemma_value_of_word(n);
    lemma_word_of_value(word_of(n));
}

/// Basis point `index`: the odd number `2 · index + 1` times the base word.
pub open spec fn word_basis(index: int) -> nat {
    ((2 * index + 1) * WORD_BASE) as nat
}

/// The image of the number of a word in the scalars.
pub open spec fn word_hash(v: nat) -> nat {
    wmod(v * wmod(v + WORD_SHIFT as nat))
}

/// The sum of two numbers given as 32 bytes, modulo 2^256.
pub fn add_bytes(a: &[u8; 32], b: &[u8; 32]) -> (r: [u8; 32])
    ensures
        le_value(r@) == wmod(le_value(a@) + le_value(b@)),
{
    let mut r = [0u8; 32];
    let mut carry: u16 = 0;
    let mut i: usize = 0;
    proof {
        assert(r@.subrange(0, 0) =~= Seq::<u8>::empty());
        assert(a@.subrange(0, 0) =~= Seq::<u8>::empty());
        assert(b@.subrange(0, 0) =~= Seq::<u8>::empty());
        assert(pow256(0) * 0 == 0);
    }
    while i < 32
        invariant
            i <= 32,
            carry <= 1,
            le_value(r@.subrange(0, i as int)) + pow256(i as nat) * carry == le_value(
                a@.subrange(0, i as int),
            ) + le_value(b@.subrange(0, i as int)),
        decreases 32 - i,
    {
        let sum: u16 = a[i] as u16 + b[i] as u16 + carry;
        let ghost before = r@.subrange(0, i as int);
        let digit = (sum % 256) as u8;
        let next: u16 = sum / 256;
        r[i] = digit;
        proof {
            assert(r@.subrange(0, i + 1) =~= before.push(digit));
            assert(a@.subrange(0, i + 1) =~= a@.subrange(0, i as int).push(a[i as int]));
            assert(b@.subrange(0, i + 1) =~= b@.subrange(0, i as int).push(b[i as int]));
            lemma_le_value_push(before, digit);
            lemma_le_value_push(a@.subrange(0, i as int), a[i as int]);
            lemma_le_value_push(b@.subrange(0, i as int), b[i as int]);
            let w = pow256(i as nat);
            assert(pow256((i + 1) as nat) == 256 * w);
            assert(w * digit + (256 * w) * next == w * a[i as int] + w * b[i as int] + w * carry)
                by (nonlinear_arith)
                requires
                    digit + 256 * next == a[i as int] + b[i as int] + carry,
            ;
        }
        carry = next;
        i += 1;
    }
    proof {
        lemma_pow256_32();
        assert(r@.subrange(0, 32) =~= r@);
        assert(a@.subrange(0, 32) =~= a@);
        assert(b@.subrange(0, 32) =~= b@);
        lemma_le_value_bound(r@);
        assert(pow256(32) * carry == carry * (word_modulus() as int)) by (nonlinear_arith)
            requires
                pow256(32) == word_modulus(),
        ;
        lemma_fundamental_div_mod_converse(
            (le_value(a@) + le_value(b@)) as int,
            word_modulus() as int,
            carry as int,
            le_value(r@) as int,
        );
    }
    r
}

/// The difference of two numbers given as 32 bytes, modulo 2^256.
pub fn sub_bytes(a: &[u8; 32], b: &[u8; 32]) -> (r: [u8; 32])
    ensures
        le_value(r@) == field_sub(word_modulus(), le_value(a@), le_value(b@)),
{
    let mut r = [0u8; 32];
    let mut borrow: u16 = 0;
    let mut i: usize = 0;
    proof {
        assert(r@.subrange(0, 0) =~= Seq::<u8>::empty());
        assert(a@.subrange(0, 0) =~= Seq::<u8>::empty());
        assert(b@.subrange(0, 0) =~= Seq::<u8>::empty());
        assert(pow256(0) * 0 == 0);
    }
    while i < 32
        invariant
            i <= 32,
            borrow <= 1,
            le_value(r@.subrange(0, i as int)) + le_value(b@.subrange(0, i as int)) == le_value(
                a@.subrange(0, i as int),
            ) + pow256(i as nat) * borrow,
        decreases 32 - i,
    {
        let take: u16 = b[i] as u16 + borrow;
        let have: u16 = a[i] as u16;
        let ghost before = r@.subrange(0, i as int);
        let (digit, next): (u8, u16) = if have >= take {
            ((have - take) as u8, 0)
        } else {
            ((256 + have - take) as u8, 1)
        };
        r[i] = digit;
        proof {
            assert(r@.subrange(0, i + 1) =~= before.push(digit));
            assert(a@.subrange(0, i + 1) =~= a@.subrange(0, i as int).push(a[i as int]));
            assert(b@.subrange(0, i + 1) =~= b@.subrange(0, i as int).push(b[i as int]));
            lemma_le_value_push(before, digit);
            lemma_le_value_push(a@.subrange(0, i as int), a[i as int]);
            lemma_le_value_push(b@.subrange(0, i as int), b[i as int]);
            let w = pow256(i as nat);
            assert(pow256((i + 1) as nat) == 256 * w);
            assert(w * digit + w * b[i as int] + w * borrow == w * a[i as int] + (256 * w) * next)
                by (nonlinear_arith)
                requires
                    digit + b[i as int] + borrow == a[i as int] + 256 * next,
            ;
        }
        borrow = next;
        i += 1;
    }
    proof {
        lemma_pow256_32();
        assert(r@.subrange(0, 32) =~= r@);
        assert(a@.subrange(0, 32) =~= a@);
        assert(b@.subrange(0, 32) =~= b@);
        lemma_le_value_bound(r@);
        lemma_le_value_bound(a@);
        lemma_le_value_bound(b@);
        let m = word_modulus() as int;
        let x = le_value(a@) as int;
        let y = le_value(b@) as int;
        lemma_fundamental_div_mod_converse(x + m - y, m, 1 - borrow as int, le_value(r@) as int);
    }
    r
}

/// The product of a number given as 32 bytes and a byte, modulo 2^256.
pub fn mul_byte(a: &[u8; 32], k: u8) -> (r: [u8; 32])
    ensures
        le_value(r@) == wmod(le_value(a@) * (k as nat)),
{
    let mut r = [0u8; 32];
    let mut carry: u16 = 0;
    let mut i: usize = 0;
    proof {
        assert(r@.subrange(0, 0) =~= Seq::<u8>::empty());
        assert(a@.subrange(0, 0) =~= Seq::<u8>::empty());
        assert(pow256(0) * 0 == 0);
        assert(0 * k == 0);
    }
    while i < 32
        invariant
            i <= 32,
            carry <= 255,
            le_value(r@.subrange(0, i as int)) + pow256(i as nat) * carry == le_value(
                a@.subrange(0, i as int),
            ) * k,
        decreases 32 - i,
    {
        assert(a[i as int] * k <= 255 * 255) by (nonlinear_arith)
            requires
                0 <= a[i as int] <= 255,
                0 <= k <= 255,
        ;
        let product: u16 = (a[i] as u16) * (k as u16) + carry;
        let ghost before = r@.subrange(0, i as int);
        let digit = (product % 256) as u8;
        let next: u16 = product / 256;
        r[i] = digit;
        proof {
            assert(r@.subrange(0, i + 1) =~= before.push(digit));
            assert(a@.subrange(0, i + 1) =~= a@.subrange(0, i as int).push(a[i as int]));
            lemma_le_value_push(before, digit);
            lemma_le_value_push(a@.subrange(0, i as int), a[i as int]);
            let w = pow256(i as nat);
            let low = le_value(a@.subrange(0, i as int));
            assert(pow256((i + 1) as nat) == 256 * w);
            assert(w * digit + (256 * w) * next == (w * a[i as int]) * k + w * carry)
                by (nonlinear_arith)
                requires
                    digit + 256 * next == a[i as int] * k + carry,
            ;
            assert((low + w * a[i as int]) * k == low * k + (w * a[i as int]) * k)
                by (nonlinear_arith);
        }
        carry = next;
        i += 1;
    }
    proof {
        lemma_pow256_32();
        assert(r@.subrange(0, 32) =~= r@);
        assert(a@.subrange(0, 32) =~= a@);
        lemma_le_value_bound(r@);
        assert(pow256(32) * carry == carry * (word_modulus() as int)) by (nonlinear_arith)
            requires
                pow256(32) == word_modulus(),
        ;
        lemma_fundamental_div_mod_converse(
            (le_value(a@) * k) as int,
            word_modulus() as int,
            carry as int,
            le_value(r@) as int,
        );
    }
    r
}

/// 256 times a number given as 32 bytes, modulo 2^256.
pub fn shift_byte(a: &[u8; 32]) -> (r: [u8; 32])
    ensures
        le_value(r@) == wmod(le_value(a@) * 256),
{
    let mut r = [0u8; 32];
    let mut i: usize = 1;
    while i < 32
        invariant
            1 <= i <= 32,
            r[0] == 0,
            forall|k: int| 1 <= k < i ==> r[k] == a[k - 1],
        decreases 32 - i,
    {
        r[i] = a[i - 1];
        i += 1;
    }
    proof {
        lemma_pow256_32();
        let low = a@.subrange(0, 31);
        assert(a@ =~= low.push(a[31]));
        lemma_le_value_push(low, a[31]);
        assert(r@.drop_first() =~= low);
        assert(le_value(r@) == 256 * le_value(low));
        lemma_le_value_bound(low);
        lemma_le_value_bound(r@);
        let x = le_value(low) as int;
        let top = a[31] as int;
        assert((x + pow256(31) * top) * 256 == 256 * x + (pow256(31) * 256) * top)
            by (nonlinear_arith);
        lemma_fundamental_div_mod_converse(
            (le_value(a@) * 256) as int,
            word_modulus() as int,
            top,
            le_value(r@) as int,
        );
    }
    r
}

/// The product of two numbers given as 32 bytes, modulo 2^256.
pub fn mul_bytes(a: &[u8; 32], b: &[u8; 32]) -> (r: [u8; 32])
    ensures
        le_value(r@) == wmod(le_value(a@) * le_value(b@)),
{
    let mut acc = [0u8; 32];
    let mut i: usize = 32;
    let ghost y = le_value(b@);
    proof {
        assert(a@.subrange(32, 32) =~= Seq::<u8>::empty());
        lemma_le_value_zeros(acc@);
        assert(0 * y == 0);
        lemma_small_mod(0, word_modulus());
    }
    while i > 0
        invariant
            i <= 32,
            y == le_value(b@),
            le_value(acc@) == wmod(le_value(a@.subrange(i as int, 32)) * y),
        decreases i,
    {
        let ghost rest = le_value(a@.subrange(i as int, 32));
        i -= 1;
        let shifted = shift_byte(&acc);
        let term = mul_byte(b, a[i]);
        acc = add_bytes(&shifted, &term);
        proof {
            let m = word_modulus() as int;
            let x = a[i as int] as int;
            assert(a@.subrange(i as int, 32).drop_first() =~= a@.subrange(i + 1, 32));
            assert(le_value(a@.subrange(i as int, 32)) == x + 256 * rest);
            assert(rest * y >= 0) by (nonlinear_arith)
                requires
                    rest >= 0,
                    y >= 0,
            ;
            assert(y * x >= 0) by (nonlinear_arith)
                requires
                    x >= 0,
                    y >= 0,
            ;
            // shifted = ((rest * y) % m * 256) % m = (rest * y * 256) % m
            lemma_mul_mod_noop_general((rest * y) as int, 256, m);
            // acc = (shifted + term) % m = (rest * y * 256 + y * x) % m
            lemma_add_mod_noop(((rest * y) * 256) as int, (y * x) as int, m);
            assert((x + 256 * rest) * y == (rest * y) * 256 + y * x) by (nonlinear_arith);
        }
    }
    proof {
        assert(a@.subrange(0, 32) =~= a@);
    }
    acc
}

/// The number `x` as 32 bytes.
pub fn word_from_u64(x: u64) -> (r: [u8; 32])
    ensures
        le_value(r@) == x,
{
    u64_to_le_bytes32(x)
}

/// Basis point `index` as 32 bytes.
pub fn basis_bytes(index: u8) -> (r: [u8; 32])
    ensures
        le_value(r@) == word_basis(index as int),
{
    let odd = word_from_u64(2 * (index as u64) + 1);
    let base = word_from_u64(WORD_BASE);
    let r = mul_bytes(&odd, &base);
    proof {
        assert((2 * index + 1) * WORD_BASE <= 511 * 0xFFFF_FFFF_FFFF_FFFF) by (nonlinear_arith)
            requires
                0 <= index <= 255,
                0 <= WORD_BASE <= 0xFFFF_FFFF_FFFF_FFFF,
        ;
        assert((2 * index + 1) * WORD_BASE >= 0) by (nonlinear_arith)
            requires
                0 <= index,
                0 <= WORD_BASE,
        ;
        lemma_small_mod(((2 * index + 1) * WORD_BASE) as nat, word_modulus());
    }
    r
}

/// The integers modulo 2^256.
pub struct WordCurve;

/// A group element of [`WordCurve`]: 32 bytes, least significant first.
#[derive(Clone, Copy, Debug, PartialEq, Eq, Hash)]
pub struct WordPoint {
    pub bytes: [u8; 32],
}

/// A scalar of [`WordCurve`]: 32 bytes, least significant first.
#[derive(Clone, Copy, Debug, PartialEq, Eq, Hash)]
pub struct WordScalar {
    pub bytes: [u8; 32],
}

/// Two arrays of 32 bytes that spell the same number hold the same bytes.
pub proof fn lemma_same_value_same_bytes(a: Seq<u8>, b: Seq<u8>)
    requires
        a.len() == b.len(),
        le_value(a) == le_value(b),
    ensures
        a == b,
{
    crate::numbers::lemma_le_bytes_of_le_value(a);
    crate::numbers::lemma_le_bytes_of_le_value(b);
}

/// The word of a number below 2^256 tells the number.
pub proof fn lemma_word_of_injective(x: nat, y: nat)
    requires
        x < word_modulus(),
        y < word_modulus(),
        word_of(x) == word_of(y),
    ensures
        x == y,
{
    lemma_value_of_word(x);
    lemma_value_of_word(y);
    lemma_small_mod(x, word_modulus());
    lemma_small_mod(y, word_modulus());
}

/// The bytes of a point are the encoding of the element that it stands for.
pub proof fn lemma_point_encoding(bytes: Seq<u8>)
    requires
        bytes.len() == 32,
    ensures
        crate::numbers::le_bytes(word_value(word_of(le_value(bytes))), 32) == bytes,
{
    lemma_pow256_32();
    lemma_le_value_bound(bytes);
    lemma_value_of_word(le_value(bytes));
    lemma_small_mod(le_value(bytes), word_modulus());
    crate::numbers::lemma_le_bytes_of_le_value(bytes);
}

impl Curve for WordCurve {
    type Point = WordPoint;

    type Scalar = WordScalar;

    type Elem = Word;

    open spec fn order() -> nat {
        word_modulus()
    }

    open spec fn scalar_value(s: &WordScalar) -> nat {
        le_value(s.bytes@)
    }

    open spec fn elem(p: &WordPoint) -> Word {
        word_of(le_value(p.bytes@))
    }

    open spec fn zero() -> Word {
        (0u128, 0u128)
    }

    open spec fn sum(a: Word, b: Word) -> Word {
        word_of(word_value(a) + word_value(b))
    }

    open spec fn basis_mul(index: int, scalar: nat) -> Word {
        word_of(word_basis(index) * scalar)
    }

    open spec fn hash(e: Word) -> nat {
        word_hash(word_value(e))
    }

    open spec fn encoding(e: Word) -> Seq<u8> {
        crate::numbers::le_bytes(word_value(e), 32)
    }

    proof fn lemma_order_bounds() {
    }

    proof fn lemma_encoding_len(e: Word) {
        crate::numbers::lemma_le_bytes_len(word_value(e), 32);
    }

    proof fn lemma_encoding_injective(a: Word, b: Word) {
        lemma_pow256_32();
        crate::numbers::lemma_le_value_of_le_bytes(word_value(a), 32);
        crate::numbers::lemma_le_value_of_le_bytes(word_value(b), 32);
        lemma_word_of_value(a);
        lemma_word_of_value(b);
        lemma_small_mod(word_value(a), word_modulus());
        lemma_small_mod(word_value(b), word_modulus());
    }

    proof fn lemma_scalar_below_order(s: &WordScalar) {
        lemma_le_value_bound(s.bytes@);
        lemma_pow256_32();
    }

    proof fn lemma_sum_commutative(a: Word, b: Word) {
    }

    proof fn lemma_sum_associative(a: Word, b: Word, c: Word) {
        let x = word_value(a);
        let y = word_value(b);
        let z = word_value(c);
        let m = word_modulus() as int;
        lemma_value_of_word(x + y);
        lemma_value_of_word(y + z);
        lemma_word_of_mod((x + y) % word_modulus() + z);
        lemma_word_of_mod(x + (y + z) % word_modulus());
        lemma_word_of_mod(x + y + z);
        lemma_add_mod_noop((x + y) as int, z as int, m);
        lemma_add_mod_noop(x as int, (y + z) as int, m);
        lemma_word_of_value(a);
        lemma_word_of_value(c);
        lemma_small_mod(x, word_modulus());
        lemma_small_mod(z, word_modulus());
    }

    proof fn lemma_sum_zero(a: Word) {
        lemma_word_of_value(a);
        assert(word_value((0u128, 0u128)) == 0) by {
            assert(half_modulus() * 0 == 0);
        }
    }

    proof fn lemma_basis_mul_zero(index: int) {
        assert(word_basis(index) * 0 == 0);
    }

    proof fn lemma_basis_mul_additive(index: int, s: nat, t: nat) {
        let g = word_basis(index) as int;
        let m = word_modulus() as int;
        assert(g * s >= 0 && g * t >= 0) by (nonlinear_arith)
            requires
                g >= 0,
        ;
        lemma_value_of_word((g * s) as nat);
        lemma_value_of_word((g * t) as nat);
        lemma_add_mod_noop(g * s, g * t, m);
        lemma_mul_mod_noop_right(g, (s + t) as int, m);
        assert(g * (s + t) == g * s + g * t) by (nonlinear_arith);
        assert(g * ((s + t) % (m as nat)) >= 0) by (nonlinear_arith)
            requires
                g >= 0,
                (s + t) % (m as nat) >= 0,
        ;
        lemma_word_of_mod(((g * s) % m + (g * t) % m) as nat);
        lemma_word_of_mod((g * ((s + t) % (m as nat))) as nat);
    }

    proof fn lemma_hash_below_order(e: Word) {
        let v = word_value(e) as int;
        let m = word_modulus() as int;
        lemma_mod_bound(v * wmod((v + WORD_SHIFT) as nat), m);
    }

    proof fn lemma_hash_zero() {
        assert(word_value((0u128, 0u128)) == 0) by {
            assert(half_modulus() * 0 == 0);
        }
        assert(0 * wmod(0 + WORD_SHIFT as nat) == 0);
    }

    fn scalar_from_le_bytes(bytes: &[u8]) -> (r: WordScalar) {
        let mut low = [0u8; 32];
        let count: usize = if bytes.len() < 32 {
            bytes.len()
        } else {
            32
        };
        let mut i: usize = 0;
        while i < count
            invariant
                i <= count,
                count <= 32,
                count <= bytes@.len(),
                forall|k: int| 0 <= k < i ==> low[k] == bytes@[k],
                forall|k: int| i <= k < 32 ==> low[k] == 0,
            decreases count - i,
        {
            low[i] = bytes[i];
            i += 1;
        }
        proof {
            lemma_pow256_32();
            let head = bytes@.subrange(0, count as int);
            let tail = bytes@.subrange(count as int, bytes@.len() as int);
            let padding = low@.subrange(count as int, 32);
            assert(bytes@ =~= head + tail);
            assert(low@ =~= head + padding);
            lemma_le_value_concat(head, tail);
            lemma_le_value_concat(head, padding);
            lemma_le_value_zeros(padding);
            assert(pow256(head.len()) * 0 == 0);
            lemma_le_value_bound(low@);
            if bytes@.len() <= 32 {
                assert(tail.len() == 0);
                assert(le_value(tail) == 0);
                lemma_small_mod(le_value(low@), word_modulus());
            } else {
                lemma_mod_multiples_vanish(
                    le_value(tail) as int,
                    le_value(head) as int,
                    word_modulus() as int,
                );
                assert(pow256(32) * le_value(tail) == word_modulus() as int * le_value(
                    tail,
                ) as int);
                lemma_small_mod(le_value(head), word_modulus());
            }
        }
        WordScalar { bytes: low }
    }

    fn scalar_to_le_bytes(s: &WordScalar) -> (r: [u8; 32]) {
        s.bytes
    }

    fn scalar_sub(a: &WordScalar, b: &WordScalar) -> (r: WordScalar) {
        WordScalar { bytes: sub_bytes(&a.bytes, &b.bytes) }
    }

    fn scalar_is_zero(s: &WordScalar) -> (r: bool) {
        let zero = [0u8; 32];
        proof {
            lemma_le_value_zeros(zero@);
            if le_value(s.bytes@) == 0 {
                lemma_same_value_same_bytes(s.bytes@, zero@);
            }
        }
        same_bytes(&s.bytes, &zero)
    }

    fn point_zero() -> (r: WordPoint) {
        let zero = [0u8; 32];
        proof {
            lemma_le_value_zeros(zero@);
        }
        WordPoint { bytes: zero }
    }

    fn point_add(a: &WordPoint, b: &WordPoint) -> (r: WordPoint) {
        let r = WordPoint { bytes: add_bytes(&a.bytes, &b.bytes) };
        proof {
            let x = le_value(a.bytes@);
            let y = le_value(b.bytes@);
            lemma_pow256_32();
            lemma_le_value_bound(a.bytes@);
            lemma_le_value_bound(b.bytes@);
            lemma_value_of_word(x);
            lemma_value_of_word(y);
            lemma_small_mod(x, word_modulus());
            lemma_small_mod(y, word_modulus());
            lemma_word_of_mod(x + y);
        }
        r
    }

    fn point_is_zero(p: &WordPoint) -> (r: bool) {
        let zero = [0u8; 32];
        proof {
            lemma_pow256_32();
            lemma_le_value_zeros(zero@);
            lemma_le_value_bound(p.bytes@);
            if word_of(le_value(p.bytes@)) == (0u128, 0u128) {
                lemma_word_of_injective(le_value(p.bytes@), 0);
                lemma_same_value_same_bytes(p.bytes@, zero@);
            }
        }
        same_bytes(&p.bytes, &zero)
    }

    fn point_eq(a: &WordPoint, b: &WordPoint) -> (r: bool) {
        proof {
            lemma_pow256_32();
            lemma_le_value_bound(a.bytes@);
            lemma_le_value_bound(b.bytes@);
            if word_of(le_value(a.bytes@)) == word_of(le_value(b.bytes@)) {
                lemma_word_of_injective(le_value(a.bytes@), le_value(b.bytes@));
                lemma_same_value_same_bytes(a.bytes@, b.bytes@);
            }
        }
        same_bytes(&a.bytes, &b.bytes)
    }

    fn commit_single(index: u8, scalar: &WordScalar) -> (r: WordPoint) {
        let basis = basis_bytes(index);
        let r = WordPoint { bytes: mul_bytes(&basis, &scalar.bytes) };
        proof {
            let g = word_basis(index as int);
            let s = le_value(scalar.bytes@);
            assert(g * s >= 0) by (nonlinear_arith)
                requires
                    g >= 0,
                    s >= 0,
            ;
            lemma_word_of_mod(g * s);
        }
        r
    }

    fn point_to_bytes(p: &WordPoint) -> (r: [u8; 32]) {
        proof {
            lemma_point_encoding(p.bytes@);
        }
        p.bytes
    }

    fn point_from_bytes(bytes: &[u8; 32]) -> (r: Option<WordPoint>) {
        proof {
            lemma_point_encoding(bytes@);
        }
        Some(WordPoint { bytes: *bytes })
    }

    fn map_to_scalar_field(p: &WordPoint) -> (r: WordScalar) {
        let shift = word_from_u64(WORD_SHIFT);
        let shifted = add_bytes(&p.bytes, &shift);
        let r = WordScalar { bytes: mul_bytes(&p.bytes, &shifted) };
        proof {
            let v = le_value(p.bytes@);
            lemma_pow256_32();
            lemma_le_value_bound(p.bytes@);
            lemma_value_of_word(v);
            lemma_small_mod(v, word_modulus());
        }
        r
    }
}

} // verus!
