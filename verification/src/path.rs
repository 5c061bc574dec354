//! The position of a node in the trie: the stem bytes that lead to it from the root.
use vstd::prelude::*;
use crate::primitives::Stem;

verus! {

/// A sequence of stem bytes from the root to a node. The root has the empty path.
#[derive(Debug, Clone, PartialEq, Eq, Hash)]
pub struct TriePath {
    pub(crate) bytes: Vec<u8>,
}

impl View for TriePath {
    type V = Seq<u8>;

    open(crate) spec fn view(&self) -> Seq<u8> {
        self.bytes@
    }
}

/// Whether `a` comes before `b` where shorter paths come first and paths of
/// one length are in byte order.
pub open spec fn path_less(a: Seq<u8>, b: Seq<u8>) -> bool {
    a.len() < b.len() || (a.len() == b.len() && crate::primitives::bytes_less(a, b))
}

impl TriePath {
    pub fn new(bytes: Vec<u8>) -> (r: Self)
        ensures
            r@ == bytes@,
    {
        TriePath { bytes }
    }

    /// The empty path, which is that of the root.
    pub fn root() -> (r: Self)
        ensures
            r@ == Seq::<u8>::empty(),
    {
        TriePath { bytes: Vec::new() }
    }

    /// The first `len` bytes of `stem`.
    pub fn from_stem_prefix(stem: &Stem, len: usize) -> (r: Self)
        requires
            len <= 31,
        ensures
            r@ == stem@.subrange(0, len as int),
    {
        let mut bytes: Vec<u8> = Vec::new();
        let mut i: usize = 0;
        while i < len
            invariant
                i <= len,
                len <= 31,
                bytes@.len() == i,
                forall|k: int| 0 <= k < i ==> bytes@[k] == stem@[k],
            decreases len - i,
        {
            bytes.push(stem.byte(i));
            i += 1;
        }
        assert(bytes@ =~= stem@.subrange(0, len as int));
        TriePath { bytes }
    }

    pub fn len(&self) -> (r: usize)
        ensures
            r == self@.len(),
    {
        self.bytes.len()
    }

    pub fn as_slice(&self) -> (r: &[u8])
        ensures
            r@ == self@,
    {
        self.bytes.as_slice()
    }

    pub fn equals(&self, other: &TriePath) -> (r: bool)
        ensures
            r == (self@ == other@),
    {
        if self.bytes.len() != other.bytes.len() {
            return false;
        }
        let mut i: usize = 0;
        while i < self.bytes.len()
            invariant
                i <= self.bytes@.len(),
                self.bytes@.len() == other.bytes@.len(),
                forall|k: int| 0 <= k < i ==> self.bytes@[k] == other.bytes@[k],
            decreases self.bytes@.len() - i,
        {
            if self.bytes[i] != other.bytes[i] {
                return false;
            }
            i += 1;
        }
        assert(self@ =~= other@);
        true
    }

    /// Whether this path is gossiped before `other`: shorter paths first,
    /// paths of one length in byte order.
    pub fn less_than(&self, other: &TriePath) -> (r: bool)
        ensures
            r == path_less(self@, other@),
    {
        if self.bytes.len() != other.bytes.len() {
            return self.bytes.len() < other.bytes.len();
        }
        let mut i: usize = 0;
        while i < self.bytes.len()
            invariant
                i <= self.bytes@.len(),
                self.bytes@.len() == other.bytes@.len(),
                forall|k: int| 0 <= k < i ==> self.bytes@[k] == other.bytes@[k],
            decreases self.bytes@.len() - i,
        {
            if self.bytes[i] != other.bytes[i] {
                let r = self.bytes[i] < other.bytes[i];
                proof {
                    let a = self@;
                    let b = other@;
                    let k = i as int;
                    assert(a.subrange(0, k) =~= b.subrange(0, k));
                    if !r {
                        assert forall|m: int|
                            0 <= m < a.len() && m < b.len() && a.subrange(0, m) == b.subrange(
                                0,
                                m,
                            ) implies !(a[m] < b[m]) by {
                            if m > k {
                                assert(a.subrange(0, m)[k] == a[k]);
                                assert(b.subrange(0, m)[k] == b[k]);
                            }
                        }
                    }
                }
                return r;
            }
            i += 1;
        }
        assert(self@ =~= other@);
        false
    }
}

/// An optional path as optional bytes.
pub open spec fn option_path_view(path: Option<TriePath>) -> Option<Seq<u8>> {
    match path {
        Some(p) => Some(p@),
        None => None,
    }
}

} // verus!
