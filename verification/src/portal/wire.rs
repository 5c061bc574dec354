//! Sparse vectors and keys to bytes and back.
use vstd::prelude::*;
use crate::curve::Curve;
use crate::portal::content::{LeafFragmentKey, VerkleContentKey};
use crate::portal::sparse_vector::SparseVector;
use crate::portal::ssz::{
    bit_of, bitmap, bitmap_bits, byte_of, count_set, halved, items_fit, lemma_halved_bounds,
    pack, payload, presence, sparse_decoding, sparse_encoding, unpack,
};
use crate::primitives::{option_view, Stem, TrieValue};

verus! {

/// Items as they go on the wire: each position set to 32 bytes, or unset.
pub open spec fn chunks_view(items: Seq<Option<[u8; 32]>>) -> Seq<Option<Seq<u8>>> {
    Seq::new(
        items.len(),
        |i: int|
            match items[i] {
                Some(chunk) => Some(chunk@),
                None => None,
            },
    )
}

/// The byte for eight positions of `items` from `first` on.
fn presence_byte(items: &Vec<Option<[u8; 32]>>, first: usize) -> (r: u8)
    requires
        first + 8 <= items@.len(),
        items@.len() <= 256,
    ensures
        r == byte_of(presence(chunks_view(items@)).subrange(first as int, first + 8)),
{
    let ghost bits = presence(chunks_view(items@)).subrange(first as int, first + 8);
    let mut value: u8 = 0;
    let mut b: usize = 8;
    while b > 0
        invariant
            b <= 8,
            first + 8 <= items@.len(),
            items@.len() <= 256,
            bits == presence(chunks_view(items@)).subrange(first as int, first + 8),
            value == pack(bits, b as int),
            b == 8 ==> value == 0,
            b == 7 ==> value < 2,
            b == 6 ==> value < 4,
            b == 5 ==> value < 8,
            b == 4 ==> value < 16,
            b == 3 ==> value < 32,
            b == 2 ==> value < 64,
            b == 1 ==> value < 128,
        decreases b,
    {
        b -= 1;
        let bit: u8 = if items[first + b].is_some() {
            1
        } else {
            0
        };
        assert(bits[b as int] == (items@[first + b] is Some));
        value = bit + 2 * value;
    }
    value
}

/// The encoding of a sparse vector of 32-byte items.
pub fn encode_sparse(items: &Vec<Option<[u8; 32]>>) -> (r: Vec<u8>)
    requires
        items@.len() % 8 == 0,
        items@.len() <= 256,
    ensures
        r@ == sparse_encoding(chunks_view(items@)),
{
    let ghost chunks = chunks_view(items@);
    let mut bytes: Vec<u8> = Vec::new();
    let groups = items.len() / 8;
    let mut j: usize = 0;
    while j < groups
        invariant
            j <= groups,
            groups == items@.len() / 8,
            items@.len() % 8 == 0,
            items@.len() <= 256,
            chunks == chunks_view(items@),
            bytes@ == bitmap(presence(chunks)).subrange(0, j as int),
        decreases groups - j,
    {
        let byte = presence_byte(items, 8 * j);
        bytes.push(byte);
        assert(bytes@ =~= bitmap(presence(chunks)).subrange(0, j + 1));
        j += 1;
    }
    assert(bytes@ =~= bitmap(presence(chunks)));
    let mut i: usize = 0;
    while i < items.len()
        invariant
            i <= items@.len(),
            chunks == chunks_view(items@),
            bytes@ == bitmap(presence(chunks)) + payload(chunks, i as int),
        decreases items@.len() - i,
    {
        match &items[i] {
            Some(chunk) => {
                let ghost before = bytes@;
                let mut k: usize = 0;
                while k < 32
                    invariant
                        k <= 32,
                        bytes@ == before + chunk@.subrange(0, k as int),
                    decreases 32 - k,
                {
                    bytes.push(chunk[k]);
                    assert(bytes@ =~= before + chunk@.subrange(0, k + 1));
                    k += 1;
                }
                assert(chunk@.subrange(0, 32) =~= chunk@);
                assert(bytes@ =~= bitmap(presence(chunks)) + payload(chunks, i + 1));
            },
            None => {},
        }
        i += 1;
    }
    bytes
}

/// The sparse vector of `n` positions that `bytes` encode, if they encode one.
pub fn decode_sparse(bytes: &[u8], n: usize) -> (r: Option<Vec<Option<[u8; 32]>>>)
    requires
        n % 8 == 0,
        n <= 256,
    ensures
        match r {
            Some(items) => sparse_decoding(bytes@, n as int) == Some(chunks_view(items@)),
            None => sparse_decoding(bytes@, n as int) is None,
        },
{
    let map_len = n / 8;
    if bytes.len() < map_len {
        return None;
    }
    let ghost present = bitmap_bits(bytes@.subrange(0, map_len as int));
    let ghost data = bytes@.subrange(map_len as int, bytes@.len() as int);
    let mut items: Vec<Option<[u8; 32]>> = Vec::new();
    let mut used: usize = 0;
    let mut i: usize = 0;
    proof {
        assert(chunks_view(items@) =~= unpack(present, data, 0));
    }
    while i < n
        invariant
            i <= n,
            n % 8 == 0,
            n <= 256,
            map_len == n / 8,
            map_len <= bytes@.len(),
            present == bitmap_bits(bytes@.subrange(0, map_len as int)),
            data == bytes@.subrange(map_len as int, bytes@.len() as int),
            used == count_set(present, i as int),
            used <= i,
            32 * used <= data.len(),
            items@.len() == i,
            chunks_view(items@) == unpack(present, data, i as int),
        decreases n - i,
    {
        let is_set = bit_at(bytes[i / 8], i % 8);
        assert(present[i as int] == bit_of(
            bytes@.subrange(0, map_len as int)[i as int / 8],
            i as int % 8,
        ));
        let ghost before = chunks_view(items@);
        if is_set {
            if bytes.len() - map_len < 32 * used + 32 {
                proof {
                    crate::portal::ssz::lemma_count_monotone(present, i + 1, n as int);
                }
                return None;
            }
            let mut chunk = [0u8; 32];
            let mut k: usize = 0;
            while k < 32
                invariant
                    k <= 32,
                    used <= 256,
                    map_len <= 32,
                    map_len + 32 * used + 32 <= bytes@.len(),
                    forall|m: int| 0 <= m < k ==> chunk[m] == bytes@[map_len + 32 * used + m],
                decreases 32 - k,
            {
                chunk[k] = bytes[map_len + 32 * used + k];
                k += 1;
            }
            assert(chunk@ =~= data.subrange(32 * used, 32 * used + 32));
            items.push(Some(chunk));
            used += 1;
        } else {
            items.push(None);
        }
        assert(chunks_view(items@) =~= unpack(present, data, i + 1));
        i += 1;
    }
    if bytes.len() - map_len != 32 * used {
        return None;
    }
    Some(items)
}

/// Whether bit `b` of `byte` is set.
pub fn bit_at(byte: u8, b: usize) -> (r: bool)
    requires
        b < 8,
    ensures
        r == bit_of(byte, b as int),
{
    let mut rest = byte;
    let mut i: usize = 0;
    while i < b
        invariant
            i <= b,
            b < 8,
            rest == halved(byte as int, i as int),
        decreases b - i,
    {
        rest = rest / 2;
        i += 1;
    }
    rest % 2 == 1
}

/// The items of a sparse vector of points as they go on the wire.
pub open spec fn point_chunks<C: Curve>(items: Seq<Option<C::Point>>) -> Seq<Option<Seq<u8>>> {
    Seq::new(
        items.len(),
        |i: int|
            match items[i] {
                Some(p) => Some(C::encoding(C::elem(&p))),
                None => None,
            },
    )
}

/// The items of a sparse vector of values as they go on the wire.
pub open spec fn value_chunks(items: Seq<Option<TrieValue>>) -> Seq<Option<Seq<u8>>> {
    Seq::new(items.len(), |i: int| option_view(items[i]))
}

/// Whether every item that is set encodes a point.
pub open spec fn chunks_are_points<C: Curve>(chunks: Seq<Option<Seq<u8>>>) -> bool {
    forall|i: int|
        0 <= i < chunks.len() ==> (#[trigger] chunks[i] matches Some(chunk) ==> exists|
            e: C::Elem,
        |
            C::encoding(e) == chunk)
}

/// The encoding of a sparse vector of points.
pub fn encode_sparse_points<C: Curve, const N: usize>(vector: &SparseVector<C::Point, N>) -> (r:
    Vec<u8>)
    requires
        N % 8 == 0,
        N <= 256,
    ensures
        r@ == sparse_encoding(point_chunks::<C>(vector.items())),
{
    let mut chunks: Vec<Option<[u8; 32]>> = Vec::new();
    let mut i: usize = 0;
    proof {
        vector.lemma_len();
        assert(chunks_view(chunks@) =~= point_chunks::<C>(vector.items()).subrange(0, 0));
    }
    while i < N
        invariant
            i <= N,
            vector.items().len() == N,
            chunks@.len() == i,
            chunks_view(chunks@) == point_chunks::<C>(vector.items()).subrange(0, i as int),
        decreases N - i,
    {
        let chunk = match vector.get(i) {
            Some(point) => Some(C::point_to_bytes(&point)),
            None => None,
        };
        chunks.push(chunk);
        assert(chunks_view(chunks@) =~= point_chunks::<C>(vector.items()).subrange(0, i + 1));
        i += 1;
    }
    assert(chunks_view(chunks@) =~= point_chunks::<C>(vector.items()));
    encode_sparse(&chunks)
}

/// The sparse vector of points that `bytes` encode, if they encode one.
pub fn decode_sparse_points<C: Curve, const N: usize>(bytes: &[u8]) -> (r: Option<
    SparseVector<C::Point, N>,
>)
    requires
        N % 8 == 0,
        N <= 256,
    ensures
        match r {
            Some(vector) => sparse_decoding(bytes@, N as int) == Some(
                point_chunks::<C>(vector.items()),
            ),
            None => sparse_decoding(bytes@, N as int) matches Some(chunks) ==> !chunks_are_points::<
                C,
            >(chunks),
        },
{
    let chunks = match decode_sparse(bytes, N) {
        Some(chunks) => chunks,
        None => {
            return None;
        },
    };
    proof {
        crate::portal::ssz::lemma_encode_decoded(bytes@, N as int);
    }
    let mut points: [Option<C::Point>; N] = [None;N];
    let mut i: usize = 0;
    while i < N
        invariant
            i <= N,
            chunks@.len() == N,
            sparse_decoding(bytes@, N as int) == Some(chunks_view(chunks@)),
            forall|k: int|
                0 <= k < i ==> point_chunks::<C>(points@)[k] == chunks_view(chunks@)[k],
        decreases N - i,
    {
        match &chunks[i] {
            Some(chunk) => {
                match C::point_from_bytes(chunk) {
                    Some(point) => {
                        points[i] = Some(point);
                    },
                    None => {
                        proof {
                            let views = chunks_view(chunks@);
                            assert(views[i as int] == Some(chunk@));
                            if chunks_are_points::<C>(views) {
                                let e = choose|e: C::Elem| C::encoding(e) == chunk@;
                                assert(C::encoding(e) == chunk@);
                            }
                        }
                        return None;
                    },
                }
            },
            None => {
                points[i] = None;
            },
        }
        i += 1;
    }
    assert(point_chunks::<C>(points@) =~= chunks_view(chunks@));
    Some(SparseVector::new(points))
}

/// The encoding of a sparse vector of values.
pub fn encode_sparse_values<const N: usize>(vector: &SparseVector<TrieValue, N>) -> (r: Vec<u8>)
    requires
        N % 8 == 0,
        N <= 256,
    ensures
        r@ == sparse_encoding(value_chunks(vector.items())),
{
    let mut chunks: Vec<Option<[u8; 32]>> = Vec::new();
    let mut i: usize = 0;
    proof {
        vector.lemma_len();
        assert(chunks_view(chunks@) =~= value_chunks(vector.items()).subrange(0, 0));
    }
    while i < N
        invariant
            i <= N,
            vector.items().len() == N,
            chunks@.len() == i,
            chunks_view(chunks@) == value_chunks(vector.items()).subrange(0, i as int),
        decreases N - i,
    {
        let chunk = match vector.get(i) {
            Some(value) => Some(*value.as_bytes()),
            None => None,
        };
        chunks.push(chunk);
        assert(chunks_view(chunks@) =~= value_chunks(vector.items()).subrange(0, i + 1));
        i += 1;
    }
    assert(chunks_view(chunks@) =~= value_chunks(vector.items()));
    encode_sparse(&chunks)
}

/// The sparse vector of values that `bytes` encode, if they encode one.
pub fn decode_sparse_values<const N: usize>(bytes: &[u8]) -> (r: Option<SparseVector<TrieValue, N>>)
    requires
        N % 8 == 0,
        N <= 256,
    ensures
        match r {
            Some(vector) => sparse_decoding(bytes@, N as int) == Some(value_chunks(vector.items())),
            None => sparse_decoding(bytes@, N as int) is None,
        },
{
    let chunks = match decode_sparse(bytes, N) {
        Some(chunks) => chunks,
        None => {
            return None;
        },
    };
    proof {
        crate::portal::ssz::lemma_encode_decoded(bytes@, N as int);
    }
    let mut values: [Option<TrieValue>; N] = [None;N];
    let mut i: usize = 0;
    while i < N
        invariant
            i <= N,
            chunks@.len() == N,
            forall|k: int| 0 <= k < i ==> value_chunks(values@)[k] == chunks_view(chunks@)[k],
        decreases N - i,
    {
        match &chunks[i] {
            Some(chunk) => {
                values[i] = Some(TrieValue::new(*chunk));
            },
            None => {
                values[i] = None;
            },
        }
        i += 1;
    }
    assert(value_chunks(values@) =~= chunks_view(chunks@));
    Some(SparseVector::new(values))
}

/// The encoding of a content key: one byte that tells the kind, then the
/// commitment; for a fragment of a leaf, the stem comes before the commitment.
pub open spec fn content_key_encoding<C: Curve>(key: VerkleContentKey<C>) -> Seq<u8> {
    match key {
        VerkleContentKey::Bundle(commitment) => seq![0u8] + C::encoding(C::elem(&commitment)),
        VerkleContentKey::BranchFragment(commitment) => seq![1u8] + C::encoding(
            C::elem(&commitment),
        ),
        VerkleContentKey::LeafFragment(key) => seq![2u8] + key.stem@ + C::encoding(
            C::elem(&key.commitment),
        ),
    }
}

/// Appends `more` to `bytes`.
pub fn append_bytes(bytes: &mut Vec<u8>, more: &[u8])
    ensures
        final(bytes)@ == old(bytes)@ + more@,
{
    let mut k: usize = 0;
    while k < more.len()
        invariant
            k <= more@.len(),
            bytes@ == old(bytes)@ + more@.subrange(0, k as int),
        decreases more@.len() - k,
    {
        bytes.push(more[k]);
        assert(bytes@ =~= old(bytes)@ + more@.subrange(0, k + 1));
        k += 1;
    }
    assert(more@.subrange(0, more@.len() as int) =~= more@);
}

/// The encoding of a content key.
pub fn encode_content_key<C: Curve>(key: &VerkleContentKey<C>) -> (r: Vec<u8>)
    ensures
        r@ == content_key_encoding::<C>(*key),
{
    let mut bytes: Vec<u8> = Vec::new();
    match key {
        VerkleContentKey::Bundle(commitment) => {
            bytes.push(0);
            append_bytes(&mut bytes, &C::point_to_bytes(commitment));
        },
        VerkleContentKey::BranchFragment(commitment) => {
            bytes.push(1);
            append_bytes(&mut bytes, &C::point_to_bytes(commitment));
        },
        VerkleContentKey::LeafFragment(key) => {
            bytes.push(2);
            append_bytes(&mut bytes, key.stem.as_bytes());
            append_bytes(&mut bytes, &C::point_to_bytes(&key.commitment));
        },
    }
    assert(bytes@ =~= content_key_encoding::<C>(*key));
    bytes
}

/// The content key that `bytes` encode, if they encode one.
pub fn decode_content_key<C: Curve>(bytes: &[u8]) -> (r: Option<VerkleContentKey<C>>)
    ensures
        r matches Some(key) ==> content_key_encoding::<C>(key) == bytes@,
        r is None ==> forall|key: VerkleContentKey<C>|
            #[trigger] content_key_encoding::<C>(key) != bytes@,
{
    proof {
        assert forall|key: VerkleContentKey<C>| #[trigger]
            content_key_encoding::<C>(key) == bytes@ implies key_shape::<C>(bytes@, key) by {
            lemma_key_shape::<C>(key);
        }
    }
    if bytes.len() == 33 && (bytes[0] == 0 || bytes[0] == 1) {
        let mut chunk = [0u8; 32];
        let mut k: usize = 0;
        while k < 32
            invariant
                k <= 32,
                bytes@.len() == 33,
                forall|m: int| 0 <= m < k ==> chunk[m] == bytes@[1 + m],
            decreases 32 - k,
        {
            chunk[k] = bytes[1 + k];
            k += 1;
        }
        assert(chunk@ =~= bytes@.subrange(1, 33));
        match C::point_from_bytes(&chunk) {
            Some(commitment) => {
                let key = if bytes[0] == 0 {
                    VerkleContentKey::Bundle(commitment)
                } else {
                    VerkleContentKey::BranchFragment(commitment)
                };
                assert(content_key_encoding::<C>(key) =~= bytes@);
                Some(key)
            },
            None => None,
        }
    } else if bytes.len() == 64 && bytes[0] == 2 {
        let mut stem = [0u8; 31];
        let mut chunk = [0u8; 32];
        let mut k: usize = 0;
        while k < 31
            invariant
                k <= 31,
                bytes@.len() == 64,
                forall|m: int| 0 <= m < k ==> stem[m] == bytes@[1 + m],
            decreases 31 - k,
        {
            stem[k] = bytes[1 + k];
            k += 1;
        }
        let mut k: usize = 0;
        while k < 32
            invariant
                k <= 32,
                bytes@.len() == 64,
                forall|m: int| 0 <= m < k ==> chunk[m] == bytes@[32 + m],
            decreases 32 - k,
        {
            chunk[k] = bytes[32 + k];
            k += 1;
        }
        assert(stem@ =~= bytes@.subrange(1, 32));
        assert(chunk@ =~= bytes@.subrange(32, 64));
        match C::point_from_bytes(&chunk) {
            Some(commitment) => {
                let key = VerkleContentKey::LeafFragment(
                    LeafFragmentKey { stem: Stem::new(stem), commitment },
                );
                assert(content_key_encoding::<C>(key) =~= bytes@);
                Some(key)
            },
            None => None,
        }
    } else {
        None
    }
}

/// What the bytes that encode `key` look like.
pub open spec fn key_shape<C: Curve>(bytes: Seq<u8>, key: VerkleContentKey<C>) -> bool {
    match key {
        VerkleContentKey::Bundle(commitment) => bytes.len() == 33 && bytes[0] == 0
            && bytes.subrange(1, 33) == C::encoding(C::elem(&commitment)),
        VerkleContentKey::BranchFragment(commitment) => bytes.len() == 33 && bytes[0] == 1
            && bytes.subrange(1, 33) == C::encoding(C::elem(&commitment)),
        VerkleContentKey::LeafFragment(key) => bytes.len() == 64 && bytes[0] == 2
            && bytes.subrange(32, 64) == C::encoding(C::elem(&key.commitment)),
    }
}

/// The encoding of a content key has the shape of one.
pub proof fn lemma_key_shape<C: Curve>(key: VerkleContentKey<C>)
    ensures
        key_shape::<C>(content_key_encoding::<C>(key), key),
{
    let bytes = content_key_encoding::<C>(key);
    match key {
        VerkleContentKey::Bundle(commitment) => {
            C::lemma_encoding_len(C::elem(&commitment));
            assert(bytes.subrange(1, 33) =~= C::encoding(C::elem(&commitment)));
        },
        VerkleContentKey::BranchFragment(commitment) => {
            C::lemma_encoding_len(C::elem(&commitment));
            assert(bytes.subrange(1, 33) =~= C::encoding(C::elem(&commitment)));
        },
        VerkleContentKey::LeafFragment(key) => {
            C::lemma_encoding_len(C::elem(&key.commitment));
            key.stem.lemma_len();
            assert(bytes.subrange(32, 64) =~= C::encoding(C::elem(&key.commitment)));
        },
    }
}

} // verus!
