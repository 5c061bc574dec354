//! Numbers as little-endian byte strings.
use vstd::prelude::*;
use crate::curve::le_value;

verus! {

/// `256` to the power `n`.
pub open spec fn pow256(n: nat) -> nat
    decreases n,
{
    if n == 0 {
        1
    } else {
        256 * pow256((n - 1) as nat)
    }
}

/// Appending a byte adds it at the weight of its position.
pub proof fn lemma_le_value_push(bytes: Seq<u8>, last: u8)
    ensures
        le_value(bytes.push(last)) == le_value(bytes) + pow256(bytes.len()) * last,
    decreases bytes.len(),
{
    let longer = bytes.push(last);
    assert(le_value(longer) == longer[0] as nat + 256 * le_value(longer.drop_first()));
    if bytes.len() == 0 {
        assert(longer.drop_first() =~= Seq::<u8>::empty());
        assert(le_value(longer.drop_first()) == 0);
        assert(le_value(bytes) == 0);
        assert(pow256(0) == 1);
        assert(1 * (last as nat) == last as nat);
    } else {
        assert(longer.drop_first() =~= bytes.drop_first().push(last));
        assert(longer[0] == bytes[0]);
        lemma_le_value_push(bytes.drop_first(), last);
        let rest = le_value(bytes.drop_first());
        let weight = pow256((bytes.len() - 1) as nat);
        assert(pow256(bytes.len()) == 256 * weight);
        assert(le_value(bytes) == bytes[0] as nat + 256 * rest);
        assert(256 * (rest + weight * last) == 256 * rest + (256 * weight) * last)
            by (nonlinear_arith);
    }
}

/// A byte string of length `n` spells a number below `256^n`.
pub proof fn lemma_le_value_bound(bytes: Seq<u8>)
    ensures
        le_value(bytes) < pow256(bytes.len()),
    decreases bytes.len(),
{
    if bytes.len() > 0 {
        lemma_le_value_bound(bytes.drop_first());
    }
}

/// Zero bytes spell zero.
pub proof fn lemma_le_value_zeros(bytes: Seq<u8>)
    requires
        forall|i: int| 0 <= i < bytes.len() ==> bytes[i] == 0,
    ensures
        le_value(bytes) == 0,
    decreases bytes.len(),
{
    if bytes.len() > 0 {
        lemma_le_value_zeros(bytes.drop_first());
    }
}

/// The number that a concatenation spells.
pub proof fn lemma_le_value_concat(low: Seq<u8>, high: Seq<u8>)
    ensures
        le_value(low + high) == le_value(low) + pow256(low.len()) * le_value(high),
    decreases high.len(),
{
    if high.len() == 0 {
        assert(low + high =~= low);
        assert(pow256(low.len()) * 0 == 0);
    } else {
        let front = high.drop_last();
        assert(low + high =~= (low + front).push(high.last()));
        assert(high =~= front.push(high.last()));
        lemma_le_value_push(low + front, high.last());
        lemma_le_value_push(front, high.last());
        lemma_le_value_concat(low, front);
        lemma_pow256_add(low.len(), front.len());
        let a = pow256(low.len());
        let b = pow256(front.len());
        let v = le_value(front);
        let x = high.last() as nat;
        assert(a * (v + b * x) == a * v + (a * b) * x) by (nonlinear_arith);
    }
}

/// `256^(a + b)` is `256^a · 256^b`.
pub proof fn lemma_pow256_add(a: nat, b: nat)
    ensures
        pow256(a + b) == pow256(a) * pow256(b),
    decreases b,
{
    if b == 0 {
        assert(pow256(a) * 1 == pow256(a));
    } else {
        lemma_pow256_add(a, (b - 1) as nat);
        let x = pow256(a);
        let y = pow256((b - 1) as nat);
        assert(256 * (x * y) == x * (256 * y)) by (nonlinear_arith);
    }
}

/// The eight bytes that spell `x`, least significant first.
pub fn u64_to_le_bytes(x: u64) -> (r: [u8; 8])
    ensures
        le_value(r@) == x,
{
    let mut bytes = [0u8; 8];
    let mut rest: u64 = x;
    let mut i: usize = 0;
    proof {
        assert(bytes@.subrange(0, 0) =~= Seq::<u8>::empty());
        assert(le_value(bytes@.subrange(0, 0)) == 0);
        assert(pow256(0) == 1);
        assert(1 * (rest as nat) == rest as nat);
    }
    while i < 8
        invariant
            i <= 8,
            le_value(bytes@.subrange(0, i as int)) + pow256(i as nat) * rest == x,
        decreases 8 - i,
    {
        let byte = (rest % 256) as u8;
        let ghost before = bytes@.subrange(0, i as int);
        bytes[i] = byte;
        proof {
            assert(bytes@.subrange(0, i + 1) =~= before.push(byte));
            lemma_le_value_push(before, byte);
            let w = pow256(i as nat);
            let q = (rest / 256) as nat;
            assert(rest == 256 * q + byte);
            assert(w * rest == w * byte + (256 * w) * q) by (nonlinear_arith)
                requires
                    rest == 256 * q + byte,
            ;
        }
        rest = rest / 256;
        i += 1;
    }
    proof {
        assert(bytes@.subrange(0, 8) =~= bytes@);
        lemma_le_value_bound(bytes@);
        assert(pow256(8) == 0x1_0000_0000_0000_0000) by {
            reveal_with_fuel(pow256, 9);
        }
        if rest != 0 {
            assert(pow256(8) * rest >= pow256(8)) by (nonlinear_arith)
                requires
                    rest >= 1,
            ;
        }
    }
    bytes
}

/// The `len` bytes that spell `value` modulo `256^len`, least significant first.
pub open spec fn le_bytes(value: nat, len: nat) -> Seq<u8>
    decreases len,
{
    if len == 0 {
        Seq::empty()
    } else {
        seq![(value % 256) as u8] + le_bytes(value / 256, (len - 1) as nat)
    }
}

/// The spelling in `len` bytes is `len` bytes long.
pub proof fn lemma_le_bytes_len(value: nat, len: nat)
    ensures
        le_bytes(value, len).len() == len,
    decreases len,
{
    if len > 0 {
        lemma_le_bytes_len(value / 256, (len - 1) as nat);
    }
}

/// A byte string is the spelling of the number that it spells.
pub proof fn lemma_le_bytes_of_le_value(bytes: Seq<u8>)
    ensures
        le_bytes(le_value(bytes), bytes.len()) == bytes,
    decreases bytes.len(),
{
    if bytes.len() > 0 {
        let rest = le_value(bytes.drop_first());
        lemma_le_bytes_of_le_value(bytes.drop_first());
        let value = le_value(bytes);
        assert(value == bytes[0] as nat + 256 * rest);
        assert(value % 256 == bytes[0] as nat && value / 256 == rest) by {
            vstd::arithmetic::div_mod::lemma_fundamental_div_mod_converse(
                value as int,
                256,
                rest as int,
                bytes[0] as int,
            );
        }
        assert(bytes =~= seq![bytes[0]] + bytes.drop_first());
    }
}

/// The spelling of a number in `len` bytes spells the number modulo `256^len`.
pub proof fn lemma_le_value_of_le_bytes(value: nat, len: nat)
    ensures
        le_value(le_bytes(value, len)) == value % pow256(len),
    decreases len,
{
    if len == 0 {
        assert(le_bytes(value, 0) =~= Seq::<u8>::empty());
    } else {
        let rest = le_bytes(value / 256, (len - 1) as nat);
        let bytes = le_bytes(value, len);
        lemma_le_value_of_le_bytes(value / 256, (len - 1) as nat);
        assert(bytes.drop_first() =~= rest);
        assert(bytes[0] == (value % 256) as u8);
        lemma_pow256_positive((len - 1) as nat);
        vstd::arithmetic::div_mod::lemma_mod_breakdown(
            value as int,
            256,
            pow256((len - 1) as nat) as int,
        );
    }
}

/// Powers of 256 are positive.
pub proof fn lemma_pow256_positive(n: nat)
    ensures
        pow256(n) > 0,
    decreases n,
{
    if n > 0 {
        lemma_pow256_positive((n - 1) as nat);
    }
}

/// The 32 bytes that spell `x`, least significant first.
pub fn u64_to_le_bytes32(x: u64) -> (r: [u8; 32])
    ensures
        le_value(r@) == x,
        r@ == le_bytes(x as nat, 32),
{
    let low = u64_to_le_bytes(x);
    let mut bytes = [0u8; 32];
    let mut i: usize = 0;
    while i < 8
        invariant
            i <= 8,
            forall|k: int| 0 <= k < i ==> bytes[k] == low[k],
            forall|k: int| 8 <= k < 32 ==> bytes[k] == 0,
        decreases 8 - i,
    {
        bytes[i] = low[i];
        i += 1;
    }
    proof {
        let high = bytes@.subrange(8, 32);
        assert(bytes@ =~= low@ + high);
        lemma_le_value_concat(low@, high);
        lemma_le_value_zeros(high);
        assert(pow256(8) * 0 == 0);
        lemma_le_bytes_of_le_value(bytes@);
    }
    bytes
}

/// `256^32` is `2^256`.
pub proof fn lemma_pow256_of_32()
    ensures
        pow256(32)
            == 0x1_0000_0000_0000_0000_0000_0000_0000_0000_0000_0000_0000_0000_0000_0000_0000_0000nat,
        pow256(31) * 256
            == 0x1_0000_0000_0000_0000_0000_0000_0000_0000_0000_0000_0000_0000_0000_0000_0000_0000nat,
{
    reveal_with_fuel(pow256, 33);
}

/// Whether two arrays of 32 bytes hold the same bytes.
pub fn same_bytes(a: &[u8; 32], b: &[u8; 32]) -> (r: bool)
    ensures
        r == (a@ == b@),
{
    let mut i: usize = 0;
    while i < 32
        invariant
            i <= 32,
            forall|k: int| 0 <= k < i ==> a[k] == b[k],
        decreases 32 - i,
    {
        if a[i] != b[i] {
            return false;
        }
        i += 1;
    }
    assert(a@ =~= b@);
    true
}

} // verus!
