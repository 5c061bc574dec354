//! The wire encoding of sparse vectors: a bitmap of the positions that are
//! set, followed by the items that are set, in the order of their positions.
use vstd::prelude::*;

verus! {

/// Length of an item on the wire.
pub const ITEM_LENGTH: usize = 32;

/// The number whose bit `b - from`, counted from the least significant, is
/// set exactly if `bits[b]` holds, for the bits from `from` up to 8.
pub open spec fn pack(bits: Seq<bool>, from: int) -> int
    decreases 8 - from,
{
    if from < 0 || from >= 8 {
        0
    } else {
        (if bits[from] {
            1int
        } else {
            0
        }) + 2 * pack(bits, from + 1)
    }
}

/// The byte whose bit `b`, counted from the least significant, is set
/// exactly if `bits[b]` holds.
pub open spec fn byte_of(bits: Seq<bool>) -> int {
    pack(bits, 0)
}

/// `x` halved `b` times.
pub open spec fn halved(x: int, b: int) -> int
    decreases b,
{
    if b <= 0 {
        x
    } else {
        halved(x, b - 1) / 2
    }
}

/// Whether bit `b` of `byte` is set.
pub open spec fn bit_of(byte: u8, b: int) -> bool {
    halved(byte as int, b) % 2 == 1
}

/// The eight bits of a byte.
pub open spec fn bits_of(byte: u8) -> Seq<bool> {
    Seq::new(8, |b: int| bit_of(byte, b))
}

/// The packed bits from `from` on are a number of `8 - from` bits.
pub proof fn lemma_pack_bounds(bits: Seq<bool>, from: int)
    requires
        0 <= from <= 8,
    ensures
        0 <= pack(bits, from),
        from == 8 ==> pack(bits, from) == 0,
        from == 7 ==> pack(bits, from) < 2,
        from == 6 ==> pack(bits, from) < 4,
        from == 5 ==> pack(bits, from) < 8,
        from == 4 ==> pack(bits, from) < 16,
        from == 3 ==> pack(bits, from) < 32,
        from == 2 ==> pack(bits, from) < 64,
        from == 1 ==> pack(bits, from) < 128,
        from == 0 ==> pack(bits, from) < 256,
    decreases 8 - from,
{
    if from < 8 {
        lemma_pack_bounds(bits, from + 1);
    }
}

/// Halving the packed bits `b` times leaves the bits from `b` on.
pub proof fn lemma_halved_pack(bits: Seq<bool>, b: int)
    requires
        0 <= b <= 8,
    ensures
        halved(pack(bits, 0), b) == pack(bits, b),
    decreases b,
{
    if b > 0 {
        lemma_halved_pack(bits, b - 1);
        lemma_pack_bounds(bits, b);
    }
}

/// The bits of the byte of eight bits are these bits.
pub proof fn lemma_bits_of_byte_of(bits: Seq<bool>)
    requires
        bits.len() == 8,
    ensures
        0 <= byte_of(bits) < 256,
        bits_of(byte_of(bits) as u8) == bits,
{
    lemma_pack_bounds(bits, 0);
    let x = byte_of(bits) as u8;
    assert forall|b: int| 0 <= b < 8 implies bit_of(x, b) == bits[b] by {
        lemma_halved_pack(bits, b);
        lemma_pack_bounds(bits, b + 1);
    }
    assert(bits_of(x) =~= bits);
}

/// The bits of `byte` from `b` on, packed, are `byte` halved `b` times.
pub proof fn lemma_pack_bits(byte: u8, b: int)
    requires
        0 <= b <= 8,
    ensures
        pack(bits_of(byte), b) == halved(byte as int, b),
        0 <= halved(byte as int, b),
        b == 8 ==> halved(byte as int, b) == 0,
    decreases 8 - b,
{
    lemma_halved_bounds(byte as int, b);
    if b < 8 {
        lemma_pack_bits(byte, b + 1);
        assert(bits_of(byte)[b] == bit_of(byte, b));
    }
}

/// A byte halved `b` times is a number of `8 - b` bits.
pub proof fn lemma_halved_bounds(x: int, b: int)
    requires
        0 <= x < 256,
        0 <= b <= 8,
    ensures
        0 <= halved(x, b),
        b == 0 ==> halved(x, b) < 256,
        b == 1 ==> halved(x, b) < 128,
        b == 2 ==> halved(x, b) < 64,
        b == 3 ==> halved(x, b) < 32,
        b == 4 ==> halved(x, b) < 16,
        b == 5 ==> halved(x, b) < 8,
        b == 6 ==> halved(x, b) < 4,
        b == 7 ==> halved(x, b) < 2,
        b == 8 ==> halved(x, b) == 0,
    decreases b,
{
    if b > 0 {
        lemma_halved_bounds(x, b - 1);
    }
}

/// The byte of the bits of a byte is this byte.
pub proof fn lemma_byte_of_bits_of(byte: u8)
    ensures
        byte_of(bits_of(byte)) == byte,
{
    lemma_pack_bits(byte, 0);
}

/// The bitmap of `present`, whose length is a multiple of 8: byte `j` holds
/// positions `8j .. 8j + 8`, the first in its least significant bit.
pub open spec fn bitmap(present: Seq<bool>) -> Seq<u8> {
    Seq::new(present.len() / 8, |j: int| byte_of(present.subrange(8 * j, 8 * j + 8)) as u8)
}

/// The positions that a bitmap sets.
pub open spec fn bitmap_bits(bytes: Seq<u8>) -> Seq<bool> {
    Seq::new(8 * bytes.len(), |i: int| bit_of(bytes[i / 8], i % 8))
}

/// The positions that the bitmap of `present` sets are `present`.
pub proof fn lemma_bitmap_round_trip(present: Seq<bool>)
    requires
        present.len() % 8 == 0,
    ensures
        bitmap_bits(bitmap(present)) == present,
{
    let bytes = bitmap(present);
    assert forall|i: int| 0 <= i < present.len() implies bitmap_bits(bytes)[i] == present[i] by {
        let j = i / 8;
        let group = present.subrange(8 * j, 8 * j + 8);
        lemma_bits_of_byte_of(group);
        assert(bits_of(bytes[j])[i % 8] == group[i % 8]);
    }
    assert(bitmap_bits(bytes) =~= present);
}

/// The bitmap of the positions that a bitmap sets is this bitmap.
pub proof fn lemma_bits_round_trip(bytes: Seq<u8>)
    ensures
        bitmap(bitmap_bits(bytes)) == bytes,
{
    let present = bitmap_bits(bytes);
    assert forall|j: int| 0 <= j < bytes.len() implies bitmap(present)[j] == bytes[j] by {
        let group = present.subrange(8 * j, 8 * j + 8);
        assert forall|b: int| 0 <= b < 8 implies group[b] == bits_of(bytes[j])[b] by {
            assert(group[b] == present[8 * j + b]);
            assert((8 * j + b) / 8 == j);
            assert((8 * j + b) % 8 == b);
        }
        assert(group =~= bits_of(bytes[j]));
        lemma_byte_of_bits_of(bytes[j]);
    }
    assert(bitmap(present) =~= bytes);
}

/// Whether each position of `items` is set or not.
pub open spec fn presence(items: Seq<Option<Seq<u8>>>) -> Seq<bool> {
    Seq::new(items.len(), |i: int| items[i] is Some)
}

/// The number of the first `k` positions that are set.
pub open spec fn count_set(present: Seq<bool>, k: int) -> int
    decreases k,
{
    if k <= 0 {
        0
    } else {
        count_set(present, k - 1) + if present[k - 1] {
            1int
        } else {
            0
        }
    }
}

/// The items that are set among the first `k`, one after the other.
pub open spec fn payload(items: Seq<Option<Seq<u8>>>, k: int) -> Seq<u8>
    decreases k,
{
    if k <= 0 {
        Seq::empty()
    } else {
        match items[k - 1] {
            Some(item) => payload(items, k - 1) + item,
            None => payload(items, k - 1),
        }
    }
}

/// Every item that is set is 32 bytes long.
pub open spec fn items_fit(items: Seq<Option<Seq<u8>>>) -> bool {
    forall|i: int| 0 <= i < items.len() ==> (#[trigger] items[i] matches Some(item) ==> item.len() == 32)
}

/// The encoding of a sparse vector whose length is a multiple of 8 and
/// whose items are 32 bytes each: the bitmap of the positions that are set,
/// then the items that are set.
pub open spec fn sparse_encoding(items: Seq<Option<Seq<u8>>>) -> Seq<u8> {
    bitmap(presence(items)) + payload(items, items.len() as int)
}

/// The first `k` positions of the sparse vector that the bitmap `present`
/// and the items in `data` describe: a position that is set holds the next
/// 32 bytes of `data`.
pub open spec fn unpack(present: Seq<bool>, data: Seq<u8>, k: int) -> Seq<Option<Seq<u8>>>
    decreases k,
{
    if k <= 0 {
        Seq::empty()
    } else {
        unpack(present, data, k - 1).push(
            if present[k - 1] {
                Some(
                    data.subrange(
                        32 * count_set(present, k - 1),
                        32 * count_set(present, k - 1) + 32,
                    ),
                )
            } else {
                None
            },
        )
    }
}

/// The sparse vector of `n` positions that `bytes` encode, if they encode
/// one: the bitmap must be there, and as many items as it sets, and nothing more.
pub open spec fn sparse_decoding(bytes: Seq<u8>, n: int) -> Option<Seq<Option<Seq<u8>>>> {
    if bytes.len() < n / 8 {
        None
    } else {
        let present = bitmap_bits(bytes.subrange(0, n / 8));
        let data = bytes.subrange(n / 8, bytes.len() as int);
        if data.len() != 32 * count_set(present, n) {
            None
        } else {
            Some(unpack(present, data, n))
        }
    }
}

/// Of `k` positions, between 0 and `k` are set.
pub proof fn lemma_count_bounds(present: Seq<bool>, k: int)
    requires
        0 <= k,
    ensures
        0 <= count_set(present, k) <= k,
    decreases k,
{
    if k > 0 {
        lemma_count_bounds(present, k - 1);
    }
}

/// The more positions, the more of them are set.
pub proof fn lemma_count_monotone(present: Seq<bool>, j: int, k: int)
    requires
        0 <= j <= k,
    ensures
        count_set(present, j) <= count_set(present, k),
    decreases k - j,
{
    if j < k {
        lemma_count_monotone(present, j, k - 1);
    }
}

/// The payload is 32 bytes for each position that is set.
pub proof fn lemma_payload_len(items: Seq<Option<Seq<u8>>>, k: int)
    requires
        items_fit(items),
        0 <= k <= items.len(),
    ensures
        payload(items, k).len() == 32 * count_set(presence(items), k),
    decreases k,
{
    if k > 0 {
        lemma_payload_len(items, k - 1);
    }
}

/// Unpacking `k` positions gives `k` positions.
pub proof fn lemma_unpack_len(present: Seq<bool>, data: Seq<u8>, k: int)
    requires
        0 <= k,
    ensures
        unpack(present, data, k).len() == k,
    decreases k,
{
    if k > 0 {
        lemma_unpack_len(present, data, k - 1);
    }
}

/// Unpacking reads only the part of the data that the positions before `k` use.
pub proof fn lemma_unpack_prefix(present: Seq<bool>, data: Seq<u8>, more: Seq<u8>, k: int)
    requires
        0 <= k,
        32 * count_set(present, k) <= data.len(),
    ensures
        unpack(present, data + more, k) == unpack(present, data, k),
    decreases k,
{
    if k > 0 {
        lemma_count_bounds(present, k - 1);
        lemma_unpack_prefix(present, data, more, k - 1);
        let at = 32 * count_set(present, k - 1);
        if present[k - 1] {
            assert((data + more).subrange(at, at + 32) =~= data.subrange(at, at + 32));
        }
    }
}

/// Decoding what was encoded gives back what was encoded.
pub proof fn lemma_unpack_payload(items: Seq<Option<Seq<u8>>>, k: int)
    requires
        items_fit(items),
        0 <= k <= items.len(),
    ensures
        unpack(presence(items), payload(items, k), k) == items.subrange(0, k),
    decreases k,
{
    let present = presence(items);
    if k == 0 {
        assert(items.subrange(0, 0) =~= Seq::<Option<Seq<u8>>>::empty());
    } else {
        lemma_unpack_payload(items, k - 1);
        lemma_payload_len(items, k - 1);
        lemma_count_bounds(present, k - 1);
        let before = payload(items, k - 1);
        match items[k - 1] {
            Some(item) => {
                lemma_unpack_prefix(present, before, item, k - 1);
                let at = 32 * count_set(present, k - 1);
                assert((before + item).subrange(at, at + 32) =~= item);
            },
            None => {},
        }
        assert(items.subrange(0, k) =~= items.subrange(0, k - 1).push(items[k - 1]));
    }
}

/// Encoding what was decoded gives back what was decoded.
pub proof fn lemma_payload_unpack(present: Seq<bool>, data: Seq<u8>, k: int)
    requires
        0 <= k <= present.len(),
        32 * count_set(present, k) <= data.len(),
    ensures
        payload(unpack(present, data, k), k) == data.subrange(0, 32 * count_set(present, k)),
        items_fit(unpack(present, data, k)),
        presence(unpack(present, data, k)) == present.subrange(0, k),
    decreases k,
{
    let items = unpack(present, data, k);
    if k == 0 {
        assert(data.subrange(0, 0) =~= Seq::<u8>::empty());
        assert(presence(items) =~= present.subrange(0, 0));
    } else {
        let fewer = unpack(present, data, k - 1);
        lemma_count_bounds(present, k - 1);
        lemma_payload_unpack(present, data, k - 1);
        lemma_unpack_len(present, data, k - 1);
        lemma_payload_same(items, fewer, k - 1);
        let at = 32 * count_set(present, k - 1);
        if present[k - 1] {
            assert(data.subrange(0, at) + data.subrange(at, at + 32) =~= data.subrange(
                0,
                at + 32,
            ));
        }
        assert forall|i: int| 0 <= i < items.len() implies (#[trigger] items[i] matches Some(
            item,
        ) ==> item.len() == 32) by {
            if i < k - 1 {
                assert(items[i] == fewer[i]);
            }
        }
        assert forall|i: int| 0 <= i < k implies presence(items)[i] == present[i] by {
            if i < k - 1 {
                assert(items[i] == fewer[i]);
                assert(presence(fewer)[i] == present.subrange(0, k - 1)[i]);
            }
        }
        lemma_unpack_len(present, data, k);
        assert(presence(items) =~= present.subrange(0, k));
    }
}

/// The payload of the first `k` items depends on these items alone.
pub proof fn lemma_payload_same(a: Seq<Option<Seq<u8>>>, b: Seq<Option<Seq<u8>>>, k: int)
    requires
        0 <= k <= a.len(),
        k <= b.len(),
        forall|i: int| 0 <= i < k ==> a[i] == b[i],
    ensures
        payload(a, k) == payload(b, k),
    decreases k,
{
    if k > 0 {
        lemma_payload_same(a, b, k - 1);
    }
}

/// The number of positions set depends on the first `k` positions alone.
pub proof fn lemma_count_same(a: Seq<bool>, b: Seq<bool>, k: int)
    requires
        0 <= k <= a.len(),
        k <= b.len(),
        forall|i: int| 0 <= i < k ==> a[i] == b[i],
    ensures
        count_set(a, k) == count_set(b, k),
    decreases k,
{
    if k > 0 {
        lemma_count_same(a, b, k - 1);
    }
}

/// A sparse vector is what its encoding decodes to.
#[verifier::rlimit(30)]
pub proof fn lemma_decode_encoded(items: Seq<Option<Seq<u8>>>)
    requires
        items_fit(items),
        items.len() % 8 == 0,
    ensures
        sparse_decoding(sparse_encoding(items), items.len() as int) == Some(items),
{
    let n = items.len() as int;
    let present = presence(items);
    let map_bytes = bitmap(present);
    let data = payload(items, n);
    let bytes = map_bytes + data;
    assert(map_bytes.len() == n / 8);
    assert(bytes.subrange(0, n / 8) =~= map_bytes);
    assert(bytes.subrange(n / 8, bytes.len() as int) =~= data);
    assert(bitmap_bits(map_bytes) == present) by {
        lemma_bitmap_round_trip(present);
    }
    assert(data.len() == 32 * count_set(present, n)) by {
        lemma_payload_len(items, n);
    }
    assert(unpack(present, data, n) == items) by {
        lemma_unpack_payload(items, n);
        assert(items.subrange(0, n) =~= items);
    }
}

/// What bytes decode to encodes to these bytes.
#[verifier::rlimit(30)]
pub proof fn lemma_encode_decoded(bytes: Seq<u8>, n: int)
    requires
        n >= 0,
        n % 8 == 0,
        sparse_decoding(bytes, n) is Some,
    ensures
        sparse_encoding(sparse_decoding(bytes, n)->0) == bytes,
        sparse_decoding(bytes, n)->0.len() == n,
        items_fit(sparse_decoding(bytes, n)->0),
{
    let map_bytes = bytes.subrange(0, n / 8);
    let present = bitmap_bits(map_bytes);
    let data = bytes.subrange(n / 8, bytes.len() as int);
    let items = unpack(present, data, n);
    assert(sparse_decoding(bytes, n) == Some(items));
    assert(present.len() == n);
    assert(data.len() == 32 * count_set(present, n));
    assert(items.len() == n) by {
        lemma_unpack_len(present, data, n);
    }
    assert(presence(items) == present && payload(items, n) == data && items_fit(items)) by {
        lemma_payload_unpack(present, data, n);
        assert(present.subrange(0, n) =~= present);
        assert(data.subrange(0, 32 * count_set(present, n)) =~= data);
    }
    assert(bitmap(present) == map_bytes) by {
        lemma_bits_round_trip(map_bytes);
    }
    assert(bytes =~= map_bytes + data);
}

} // verus!
