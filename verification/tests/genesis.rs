use portal_verkle::account::{Address, U256};
use portal_verkle::genesis::{AccountAlloc, GenesisConfig};
use portal_verkle::primitives::{Stem, TrieKey, TrieValue};
use portal_verkle::storage::{push_data_at, AccountStorageLayout};
use portal_verkle::trie::VerkleTrie;
use portal_verkle::witness::{into_state_writes, StemStateDiff, SuffixStateDiff};
use portal_verkle::word_curve::WordCurve;

type Layout = AccountStorageLayout<WordCurve>;

fn address(byte: u8) -> Address {
    Address::new([byte; 20])
}

fn plain_account(balance: u64) -> AccountAlloc {
    AccountAlloc { balance: U256::from_u64(balance), nonce: None, code: None, storage: None }
}

fn le32(x: u64) -> [u8; 32] {
    let mut bytes = [0u8; 32];
    bytes[..8].copy_from_slice(&x.to_le_bytes());
    bytes
}

fn hex32(text: &str) -> [u8; 32] {
    let mut bytes = [0u8; 32];
    for i in 0..32 {
        bytes[i] = u8::from_str_radix(&text[2 * i..2 * i + 2], 16).unwrap();
    }
    bytes
}

fn find<'a>(diff: &'a [StemStateDiff], key: &TrieKey) -> Option<&'a SuffixStateDiff> {
    diff.iter()
        .find(|stem_diff| stem_diff.stem == key.stem())
        .and_then(|stem_diff| stem_diff.suffix_diffs.iter().find(|d| d.suffix == key.suffix()))
}

const EMPTY_CODE_HASH: &str = "c5d2460186f7233c927e7db2dcc703c0e500b653ca82273b7bfad8045d85a470";

#[test]
fn account_without_code() {
    let config = GenesisConfig { alloc: vec![(address(1), plain_account(1000))] };
    let diff = config.generate_state_diff::<WordCurve>();
    let layout = Layout::new(address(1));

    assert_eq!(diff.len(), 1);
    assert_eq!(diff[0].stem, layout.version_key().stem());
    let expected = vec![
        SuffixStateDiff {
            suffix: 0,
            current_value: None,
            new_value: Some(TrieValue::new([0u8; 32])),
        },
        SuffixStateDiff {
            suffix: 1,
            current_value: None,
            new_value: Some(TrieValue::new(le32(1000))),
        },
        SuffixStateDiff {
            suffix: 2,
            current_value: None,
            new_value: Some(TrieValue::new([0u8; 32])),
        },
        SuffixStateDiff {
            suffix: 3,
            current_value: None,
            new_value: Some(TrieValue::new(hex32(EMPTY_CODE_HASH))),
        },
    ];
    assert_eq!(diff[0].suffix_diffs, expected);
}

#[test]
fn nonce_is_written_when_given() {
    let mut account = plain_account(5);
    account.nonce = Some(U256::from_u64(77));
    let config = GenesisConfig { alloc: vec![(address(1), account)] };
    let diff = config.generate_state_diff::<WordCurve>();
    let layout = Layout::new(address(1));
    let nonce = find(&diff, &layout.nonce_key()).unwrap();
    assert_eq!(nonce.new_value, Some(TrieValue::new(le32(77))));
    assert_eq!(nonce.current_value, None);
}

#[test]
fn four_bytes_of_code_make_one_chunk() {
    let code = vec![0x60, 0x00, 0x60, 0x00];
    let mut account = plain_account(0);
    account.code = Some(code.clone());
    let config = GenesisConfig { alloc: vec![(address(9), account)] };
    let diff = config.generate_state_diff::<WordCurve>();
    let layout = Layout::new(address(9));

    let code_hash = find(&diff, &layout.code_hash_key()).unwrap();
    let digest = alloy_primitives::keccak256(&code).0;
    assert_eq!(code_hash.new_value, Some(TrieValue::new(digest)));
    assert_ne!(digest, hex32(EMPTY_CODE_HASH));

    let code_size = find(&diff, &layout.code_size_key()).unwrap();
    assert_eq!(code_size.new_value, Some(TrieValue::new(le32(4))));

    let chunks = layout.chunkify_code(&code);
    assert_eq!(chunks.len(), 1);
    let mut chunk = [0u8; 32];
    chunk[1..5].copy_from_slice(&code);
    assert_eq!(chunks[0].1, TrieValue::new(chunk));
    assert_eq!(chunks[0].0, layout.code_key(0));
    assert_eq!(chunks[0].0.suffix(), 128);
    assert_eq!(chunks[0].0.stem(), layout.version_key().stem());

    let written = find(&diff, &chunks[0].0).unwrap();
    assert_eq!(written.new_value, Some(TrieValue::new(chunk)));

    // version, balance, nonce, code hash, code size, one chunk
    let total: usize = diff.iter().map(|d| d.suffix_diffs.len()).sum();
    assert_eq!(total, 6);
}

#[test]
fn push_data_runs_into_the_next_chunk() {
    // 30 plain bytes, then PUSH4 with its data crossing the chunk boundary
    let mut code = vec![0x01u8; 30];
    code.push(0x63);
    code.extend_from_slice(&[0xaa, 0xbb, 0xcc, 0xdd]);
    code.push(0x02);
    assert_eq!(push_data_at(&code, 30), 0);
    assert_eq!(push_data_at(&code, 31), 4);
    assert_eq!(push_data_at(&code, 33), 2);
    assert_eq!(push_data_at(&code, 35), 0);

    let layout = Layout::new(address(3));
    let chunks = layout.chunkify_code(&code);
    assert_eq!(chunks.len(), 2);
    assert_eq!(chunks[0].1.as_bytes()[0], 0);
    assert_eq!(chunks[1].1.as_bytes()[0], 4);
    assert_eq!(&chunks[1].1.as_bytes()[1..6], &[0xaa, 0xbb, 0xcc, 0xdd, 0x02]);
    assert_eq!(chunks[1].0.suffix(), 129);
}

#[test]
fn push32_fills_the_lead_byte_up_to_31() {
    let mut code = vec![0x7fu8];
    code.extend_from_slice(&[0x11; 32]);
    let layout = Layout::new(address(3));
    let chunks = layout.chunkify_code(&code);
    assert_eq!(chunks.len(), 2);
    assert_eq!(chunks[0].1.as_bytes()[0], 0);
    // two bytes of push data are left at position 31
    assert_eq!(chunks[1].1.as_bytes()[0], 2);
}

#[test]
fn empty_code_has_no_chunks() {
    let layout = Layout::new(address(3));
    assert_eq!(layout.chunkify_code(&[]).len(), 0);
}

#[test]
fn chunk_129_starts_a_new_stem() {
    let layout = Layout::new(address(4));
    assert_eq!(layout.code_key(127).suffix(), 255);
    assert_eq!(layout.code_key(127).stem(), layout.version_key().stem());
    assert_eq!(layout.code_key(128).suffix(), 0);
    assert_ne!(layout.code_key(128).stem(), layout.version_key().stem());
}

#[test]
fn storage_slots() {
    let layout = Layout::new(address(5));
    let header = layout.version_key().stem();

    let low = layout.storage_slot_key(&U256::from_u64(3));
    assert_eq!(low.stem(), header);
    assert_eq!(low.suffix(), 67);

    let last_in_header = layout.storage_slot_key(&U256::from_u64(63));
    assert_eq!(last_in_header.stem(), header);
    assert_eq!(last_in_header.suffix(), 127);

    let first_outside = layout.storage_slot_key(&U256::from_u64(64));
    assert_ne!(first_outside.stem(), header);
    assert_eq!(first_outside.suffix(), 64);

    // slots 256 and 257 share a stem, slot 512 has another
    let a = layout.storage_slot_key(&U256::from_u64(256));
    let b = layout.storage_slot_key(&U256::from_u64(257));
    let c = layout.storage_slot_key(&U256::from_u64(512));
    assert_eq!(a.stem(), b.stem());
    assert_eq!(a.suffix(), 0);
    assert_eq!(b.suffix(), 1);
    assert_ne!(a.stem(), c.stem());
}

#[test]
fn storage_is_written() {
    let mut account = plain_account(1);
    let mut value = [0u8; 32];
    value[0] = 0xab;
    account.storage = Some(vec![
        (U256::from_u64(1), TrieValue::new(value)),
        (U256::from_u64(1000), TrieValue::new(value)),
    ]);
    let config = GenesisConfig { alloc: vec![(address(6), account)] };
    let diff = config.generate_state_diff::<WordCurve>();
    let layout = Layout::new(address(6));
    assert_eq!(diff.len(), 2);
    for slot in [1u64, 1000] {
        let key = layout.storage_slot_key(&U256::from_u64(slot));
        assert_eq!(find(&diff, &key).unwrap().new_value, Some(TrieValue::new(value)));
    }
}

#[test]
fn stems_come_in_byte_order() {
    let alloc = (0..40u8).map(|i| (address(i.wrapping_mul(37)), plain_account(i as u64))).collect();
    let config = GenesisConfig { alloc };
    let diff = config.generate_state_diff::<WordCurve>();
    assert_eq!(diff.len(), 40);
    for pair in diff.windows(2) {
        assert!(pair[0].stem < pair[1].stem);
        assert!(pair[0].stem.less_than(&pair[1].stem));
    }
}

#[test]
fn the_same_allocation_gives_the_same_diff() {
    let mut with_code = plain_account(3);
    with_code.code = Some(vec![0x60, 0x01, 0x00]);
    let alloc = vec![(address(2), plain_account(9)), (address(1), with_code)];
    let first = GenesisConfig { alloc: alloc.clone() }.generate_state_diff::<WordCurve>();
    let second = GenesisConfig { alloc }.generate_state_diff::<WordCurve>();
    assert_eq!(first, second);
}

#[test]
fn stem_order_is_byte_order() {
    let low = Stem::new([1u8; 31]);
    let mut bytes = [1u8; 31];
    bytes[30] = 2;
    let high = Stem::new(bytes);
    assert!(low.less_than(&high));
    assert!(!high.less_than(&low));
    assert!(!low.less_than(&low));
}

#[test]
fn an_allocation_of_278_accounts() {
    let alloc: Vec<(Address, AccountAlloc)> = (0..278u32)
        .map(|i| {
            let mut bytes = [0u8; 20];
            bytes[..4].copy_from_slice(&i.to_be_bytes());
            let mut account = plain_account(1_000_000 + i as u64);
            if i % 50 == 0 {
                account.code = Some(vec![0x60; 10 + i as usize]);
            }
            (Address::new(bytes), account)
        })
        .collect();
    let config = GenesisConfig { alloc };
    assert_eq!(config.alloc.len(), 278);

    let diff = config.generate_state_diff::<WordCurve>();
    // every account has its own header stem, and no code here leaves it
    assert_eq!(diff.len(), 278);

    let mut roots = vec![];
    for _ in 0..2 {
        let mut trie = VerkleTrie::<WordCurve>::new();
        let writes = into_state_writes(&config.generate_state_diff::<WordCurve>());
        assert_eq!(writes.len(), 278);
        trie.update(&writes).unwrap();
        roots.push(trie.root_hash());
    }
    assert_eq!(roots[0], roots[1]);
}
