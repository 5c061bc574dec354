//! Stems, keys and values: the byte strings that the trie is keyed and filled with.
use vstd::prelude::*;
use crate::curve::{le_value, Curve};

verus! {

/// Length of a stem in bytes.
pub const STEM_LENGTH: usize = 31;

/// The first 31 bytes of a key. All keys with one stem live in one leaf.
#[derive(Clone, Copy, Debug, PartialEq, Eq, PartialOrd, Ord, Hash)]
pub struct Stem {
    pub(crate) bytes: [u8; 31],
}

/// A 32-byte key: a stem followed by a one-byte suffix.
#[derive(Clone, Copy, Debug, PartialEq, Eq, PartialOrd, Ord, Hash)]
pub struct TrieKey {
    pub(crate) bytes: [u8; 32],
}

/// A 32-byte value stored under a key.
#[derive(Clone, Copy, Debug, PartialEq, Eq, Hash)]
pub struct TrieValue {
    pub(crate) bytes: [u8; 32],
}

impl View for Stem {
    type V = Seq<u8>;

    open(crate) spec fn view(&self) -> Seq<u8> {
        self.bytes@
    }
}

impl View for TrieKey {
    type V = Seq<u8>;

    open(crate) spec fn view(&self) -> Seq<u8> {
        self.bytes@
    }
}

impl View for TrieValue {
    type V = Seq<u8>;

    open(crate) spec fn view(&self) -> Seq<u8> {
        self.bytes@
    }
}

/// The stem of a key given as bytes.
pub open spec fn key_stem(key: Seq<u8>) -> Seq<u8> {
    key.subrange(0, 31)
}

/// The suffix of a key given as bytes.
pub open spec fn key_suffix(key: Seq<u8>) -> u8 {
    key[31]
}

/// The scalar that stands for a stem in a leaf's commitment.
pub open spec fn stem_scalar(order: nat, stem: Seq<u8>) -> nat {
    le_value(stem) % order
}

/// The scalar for the low half of a value: its first 16 bytes, little-endian,
/// with the marker bit 2^128 set by the byte that follows them.
pub open spec fn value_low(order: nat, value: Seq<u8>) -> nat {
    le_value(value.subrange(0, 16).push(1u8)) % order
}

/// The scalar for the high half of a value: its last 16 bytes, little-endian.
pub open spec fn value_high(order: nat, value: Seq<u8>) -> nat {
    le_value(value.subrange(16, 32)) % order
}

/// Whether `a` comes before `b` in byte order. Both have the same length.
pub open spec fn bytes_less(a: Seq<u8>, b: Seq<u8>) -> bool {
    exists|i: int|
        0 <= i < a.len() && i < b.len() && a.subrange(0, i) == b.subrange(0, i) && a[i] < b[i]
}

impl Stem {
    pub fn new(bytes: [u8; 31]) -> (r: Self)
        ensures
            r@ == bytes@,
    {
        Stem { bytes }
    }

    pub fn len_bytes() -> (r: usize)
        ensures
            r == 31,
    {
        31
    }

    pub fn as_bytes(&self) -> (r: &[u8; 31])
        ensures
            r@ == self@,
    {
        &self.bytes
    }

    pub proof fn lemma_len(&self)
        ensures
            self@.len() == 31,
    {
    }

    /// The byte at position `i`.
    pub fn byte(&self, i: usize) -> (r: u8)
        requires
            i < 31,
        ensures
            r == self@[i as int],
    {
        self.bytes[i]
    }

    pub fn equals(&self, other: &Stem) -> (r: bool)
        ensures
            r == (self@ == other@),
    {
        let mut i: usize = 0;
        while i < 31
            invariant
                i <= 31,
                forall|j: int| 0 <= j < i ==> self.bytes[j] == other.bytes[j],
            decreases 31 - i,
        {
            if self.bytes[i] != other.bytes[i] {
                return false;
            }
            i += 1;
        }
        assert(self@ =~= other@);
        true
    }

    /// Whether this stem comes before `other` in byte order.
    pub fn less_than(&self, other: &Stem) -> (r: bool)
        ensures
            r == bytes_less(self@, other@),
    {
        let mut i: usize = 0;
        while i < 31
            invariant
                i <= 31,
                forall|j: int| 0 <= j < i ==> self.bytes[j] == other.bytes[j],
            decreases 31 - i,
        {
            if self.bytes[i] != other.bytes[i] {
                let r = self.bytes[i] < other.bytes[i];
                proof {
                    let a = self@;
                    let b = other@;
                    let k = i as int;
                    assert(a.subrange(0, k) =~= b.subrange(0, k));
                    if !r {
                        assert forall|m: int|
                            0 <= m < a.len() && m < b.len() && a.subrange(0, m) == b.subrange(
                                0,
                                m,
                            ) implies !(a[m] < b[m]) by {
                            if m > k {
                                assert(a.subrange(0, m)[k] == a[k]);
                                assert(b.subrange(0, m)[k] == b[k]);
                            }
                        }
                    }
                }
                return r;
            }
            i += 1;
        }
        assert(self@ =~= other@);
        false
    }

    /// The stem as a scalar: its bytes read little-endian.
    pub fn to_scalar<C: Curve>(&self) -> (r: C::Scalar)
        ensures
            C::scalar_value(&r) == stem_scalar(C::order(), self@),
    {
        C::scalar_from_le_bytes(&self.bytes)
    }
}

impl TrieKey {
    pub fn new(bytes: [u8; 32]) -> (r: Self)
        ensures
            r@ == bytes@,
    {
        TrieKey { bytes }
    }

    /// The key with the given stem and suffix.
    pub fn from_stem_and_suffix(stem: &Stem, suffix: u8) -> (r: Self)
        ensures
            r@ == stem@.push(suffix),
            key_stem(r@) == stem@,
            key_suffix(r@) == suffix,
    {
        let mut bytes = [0u8; 32];
        let mut i: usize = 0;
        while i < 31
            invariant
                i <= 31,
                forall|j: int| 0 <= j < i ==> bytes[j] == stem.bytes[j],
            decreases 31 - i,
        {
            bytes[i] = stem.bytes[i];
            i += 1;
        }
        bytes[31] = suffix;
        assert(bytes@ =~= stem@.push(suffix));
        assert(key_stem(bytes@) =~= stem@);
        TrieKey { bytes }
    }

    pub fn as_bytes(&self) -> (r: &[u8; 32])
        ensures
            r@ == self@,
    {
        &self.bytes
    }

    pub proof fn lemma_len(&self)
        ensures
            self@.len() == 32,
            key_stem(self@).len() == 31,
    {
    }

    /// The byte at position `i`.
    pub fn byte(&self, i: usize) -> (r: u8)
        requires
            i < 32,
        ensures
            r == self@[i as int],
    {
        self.bytes[i]
    }

    pub fn stem(&self) -> (r: Stem)
        ensures
            r@ == key_stem(self@),
    {
        let mut bytes = [0u8; 31];
        let mut i: usize = 0;
        while i < 31
            invariant
                i <= 31,
                forall|j: int| 0 <= j < i ==> bytes[j] == self.bytes[j],
            decreases 31 - i,
        {
            bytes[i] = self.bytes[i];
            i += 1;
        }
        assert(bytes@ =~= key_stem(self@));
        Stem { bytes }
    }

    pub fn suffix(&self) -> (r: u8)
        ensures
            r == key_suffix(self@),
    {
        self.bytes[31]
    }

    pub fn starts_with_stem(&self, stem: &Stem) -> (r: bool)
        ensures
            r == (key_stem(self@) == stem@),
    {
        let mut i: usize = 0;
        while i < 31
            invariant
                i <= 31,
                forall|j: int| 0 <= j < i ==> self.bytes[j] == stem.bytes[j],
            decreases 31 - i,
        {
            if self.bytes[i] != stem.bytes[i] {
                assert(key_stem(self@)[i as int] != stem@[i as int]);
                return false;
            }
            i += 1;
        }
        assert(key_stem(self@) =~= stem@);
        true
    }
}

impl TrieValue {
    pub fn new(bytes: [u8; 32]) -> (r: Self)
        ensures
            r@ == bytes@,
    {
        TrieValue { bytes }
    }

    pub fn as_bytes(&self) -> (r: &[u8; 32])
        ensures
            r@ == self@,
    {
        &self.bytes
    }

    pub proof fn lemma_len(&self)
        ensures
            self@.len() == 32,
    {
    }

    pub fn equals(&self, other: &TrieValue) -> (r: bool)
        ensures
            r == (self@ == other@),
    {
        let mut i: usize = 0;
        while i < 32
            invariant
                i <= 32,
                forall|j: int| 0 <= j < i ==> self.bytes[j] == other.bytes[j],
            decreases 32 - i,
        {
            if self.bytes[i] != other.bytes[i] {
                return false;
            }
            i += 1;
        }
        assert(self@ =~= other@);
        true
    }

    /// The two scalars that a leaf commits to for this value.
    pub fn split<C: Curve>(&self) -> (r: (C::Scalar, C::Scalar))
        ensures
            C::scalar_value(&r.0) == value_low(C::order(), self@),
            C::scalar_value(&r.1) == value_high(C::order(), self@),
    {
        let mut low = [0u8; 17];
        let mut high = [0u8; 16];
        let mut i: usize = 0;
        while i < 16
            invariant
                i <= 16,
                forall|j: int| 0 <= j < i ==> low[j] == self.bytes[j],
                forall|j: int| 0 <= j < i ==> high[j] == self.bytes[16 + j],
            decreases 16 - i,
        {
            low[i] = self.bytes[i];
            high[i] = self.bytes[16 + i];
            i += 1;
        }
        low[16] = 1;
        assert(low@ =~= self@.subrange(0, 16).push(1u8));
        assert(high@ =~= self@.subrange(16, 32));
        (C::scalar_from_le_bytes(&low), C::scalar_from_le_bytes(&high))
    }
}

/// Whether two optional values hold the same bytes.
pub fn option_value_equals(a: &Option<TrieValue>, b: &Option<TrieValue>) -> (r: bool)
    ensures
        r == (option_view(*a) == option_view(*b)),
{
    match (a, b) {
        (None, None) => true,
        (Some(x), Some(y)) => x.equals(y),
        _ => false,
    }
}

/// An optional value as optional bytes.
pub open spec fn option_view(v: Option<TrieValue>) -> Option<Seq<u8>> {
    match v {
        Some(x) => Some(x@),
        None => None,
    }
}

/// If `a` comes before `b` and `b` before `c`, then `a` comes before `c`.
pub proof fn lemma_bytes_less_transitive(a: Seq<u8>, b: Seq<u8>, c: Seq<u8>)
    requires
        bytes_less(a, b),
        bytes_less(b, c),
    ensures
        bytes_less(a, c),
{
    let i = choose|i: int|
        0 <= i < a.len() && i < b.len() && a.subrange(0, i) == b.subrange(0, i) && a[i] < b[i];
    let j = choose|j: int|
        0 <= j < b.len() && j < c.len() && b.subrange(0, j) == c.subrange(0, j) && b[j] < c[j];
    let k = if i <= j {
        i
    } else {
        j
    };
    let ab = a.subrange(0, i);
    let ba = b.subrange(0, i);
    let bc = b.subrange(0, j);
    let cb = c.subrange(0, j);
    assert forall|m: int| 0 <= m < k implies a[m] == c[m] by {
        assert(ab[m] == ba[m]);
        assert(bc[m] == cb[m]);
    }
    assert(a.subrange(0, k) =~= c.subrange(0, k));
    if i < j {
        assert(bc[i] == cb[i]);
    } else if j < i {
        assert(ab[j] == ba[j]);
    }
}

/// Of two different byte strings of one length, one comes before the other.
pub proof fn lemma_bytes_less_total(a: Seq<u8>, b: Seq<u8>)
    requires
        a.len() == b.len(),
        a != b,
    ensures
        bytes_less(a, b) || bytes_less(b, a),
{
    assert(a.subrange(0, 0) =~= b.subrange(0, 0));
    lemma_first_difference(a, b, 0);
}

proof fn lemma_first_difference(a: Seq<u8>, b: Seq<u8>, from: int)
    requires
        a.len() == b.len(),
        a != b,
        0 <= from <= a.len(),
        a.subrange(0, from) == b.subrange(0, from),
    ensures
        bytes_less(a, b) || bytes_less(b, a),
    decreases a.len() - from,
{
    if from == a.len() {
        assert(a.subrange(0, from) =~= a);
        assert(b.subrange(0, from) =~= b);
    } else if a[from] == b[from] {
        let x = a.subrange(0, from);
        let y = b.subrange(0, from);
        assert forall|m: int| 0 <= m < from + 1 implies a[m] == b[m] by {
            if m < from {
                assert(x[m] == y[m]);
            }
        }
        assert(a.subrange(0, from + 1) =~= b.subrange(0, from + 1));
        lemma_first_difference(a, b, from + 1);
    } else {
        assert(b.subrange(0, from) == a.subrange(0, from));
    }
}

} // verus!
