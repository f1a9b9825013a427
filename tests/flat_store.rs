use build_an_index::{BTreeDatStore, BTreeDatStoreBuilder, BlobStore, BlobStoreBuilder, StoreError};

fn build(pairs: &[(&[u8], &[u8])]) -> Vec<u8> {
    let mut builder = BTreeDatStoreBuilder::create();
    for (k, v) in pairs {
        builder.insert(k, v).unwrap();
    }
    builder.finish().unwrap()
}

#[test]
fn test_btree_roundtrip() {
    let bytes = {
        let mut builder = BTreeDatStoreBuilder::create();
        builder.insert(b"key1", b"value1").unwrap();
        builder.insert(b"key2", b"value2").unwrap();
        builder.insert(b"key3", b"value3").unwrap();
        builder.finish().unwrap()
    };

    let store = BTreeDatStore::open(&bytes).unwrap();

    assert_eq!(store.len(), 3);
    assert_eq!(store.get(b"key1").unwrap(), Some(b"value1".to_vec()));
    assert_eq!(store.get(b"key2").unwrap(), Some(b"value2".to_vec()));
    assert_eq!(store.get(b"key3").unwrap(), Some(b"value3".to_vec()));
    assert_eq!(store.get(b"nonexistent").unwrap(), None);
}

#[test]
fn test_btree_keys_sorted() {
    let bytes = {
        let mut builder = BTreeDatStoreBuilder::create();
        builder.insert(b"zebra", b"z").unwrap();
        builder.insert(b"alpha", b"a").unwrap();
        builder.insert(b"middle", b"m").unwrap();
        builder.finish().unwrap()
    };

    let store = BTreeDatStore::open(&bytes).unwrap();
    let keys = store.keys().unwrap();

    assert_eq!(
        keys,
        vec![b"alpha".to_vec(), b"middle".to_vec(), b"zebra".to_vec()]
    );
}

#[test]
fn test_btree_binary_data() {
    let binary_key: Vec<u8> = (0..255).collect();
    let binary_value: Vec<u8> = (0..1000).map(|i| (i % 256) as u8).collect();

    let bytes = {
        let mut builder = BTreeDatStoreBuilder::create();
        builder.insert(&binary_key, &binary_value).unwrap();
        builder.finish().unwrap()
    };

    let store = BTreeDatStore::open(&bytes).unwrap();
    assert_eq!(store.get(&binary_key).unwrap(), Some(binary_value));
}

#[test]
fn test_btree_large_values() {
    let large_value: Vec<u8> = (0..100_000).map(|i| (i % 256) as u8).collect();

    let bytes = {
        let mut builder = BTreeDatStoreBuilder::create();
        builder.insert(b"large", &large_value).unwrap();
        builder.finish().unwrap()
    };

    let store = BTreeDatStore::open(&bytes).unwrap();
    assert_eq!(store.get(b"large").unwrap(), Some(large_value));
}

#[test]
fn test_btree_empty_store() {
    let bytes = {
        let builder = BTreeDatStoreBuilder::create();
        builder.finish().unwrap()
    };

    let store = BTreeDatStore::open(&bytes).unwrap();
    assert_eq!(store.len(), 0);
    assert!(store.is_empty());
    assert_eq!(store.keys().unwrap(), Vec::<Vec<u8>>::new());
}

#[test]
fn flat_image_layout_is_exact() {
    let bytes = build(&[(b"a", b"b")]);
    let mut expected: Vec<u8> = b"BTREEIDX".to_vec();
    expected.extend_from_slice(&64u64.to_le_bytes());
    expected.extend_from_slice(&85u64.to_le_bytes());
    expected.extend_from_slice(&1u64.to_le_bytes());
    expected.extend_from_slice(&[0u8; 32]);
    expected.extend_from_slice(&1u32.to_le_bytes());
    expected.push(b'a');
    expected.extend_from_slice(&85u64.to_le_bytes());
    expected.extend_from_slice(&1u64.to_le_bytes());
    expected.push(b'b');
    assert_eq!(bytes, expected);
}

#[test]
fn flat_duplicate_key_last_write_wins() {
    let bytes = build(&[(b"k", b"first"), (b"other", b"x"), (b"k", b"second")]);
    let store = BTreeDatStore::open(&bytes).unwrap();
    assert_eq!(store.len(), 2);
    assert_eq!(store.get(b"k").unwrap(), Some(b"second".to_vec()));
    assert_eq!(store.keys().unwrap(), vec![b"k".to_vec(), b"other".to_vec()]);
}

#[test]
fn flat_prefix_keys_order_shorter_first() {
    let bytes = build(&[(b"ab", b"2"), (b"a", b"1"), (b"", b"0"), (b"b", b"3")]);
    let store = BTreeDatStore::open(&bytes).unwrap();
    assert_eq!(
        store.keys().unwrap(),
        vec![b"".to_vec(), b"a".to_vec(), b"ab".to_vec(), b"b".to_vec()]
    );
    assert_eq!(store.get(b"").unwrap(), Some(b"0".to_vec()));
    assert_eq!(store.get(b"aa").unwrap(), None);
    assert_eq!(store.get(b"c").unwrap(), None);
}

#[test]
fn flat_miss_on_empty_store() {
    let bytes = build(&[]);
    let store = BTreeDatStore::open(&bytes).unwrap();
    assert_eq!(store.get(b"anything").unwrap(), None);
    assert_eq!(store.get(b"").unwrap(), None);
}

#[test]
fn flat_binary_keys_full_byte_range() {
    let pairs: Vec<(Vec<u8>, Vec<u8>)> = (0..=255u8).rev().map(|b| (vec![b, 0, b], vec![0, b, 255])).collect();
    let mut builder = BTreeDatStoreBuilder::create();
    for (k, v) in &pairs {
        builder.insert(k, v).unwrap();
    }
    let bytes = builder.finish().unwrap();
    let store = BTreeDatStore::open(&bytes).unwrap();
    assert_eq!(store.len(), 256);
    for (k, v) in &pairs {
        assert_eq!(store.get(k).unwrap(), Some(v.clone()));
    }
    let keys = store.keys().unwrap();
    assert!(keys.windows(2).all(|w| w[0] < w[1]));
}

#[test]
fn flat_open_twice_gives_identical_answers() {
    let bytes = build(&[(b"x", b"1"), (b"y", b"2")]);
    let a = BTreeDatStore::open(&bytes).unwrap();
    let b = BTreeDatStore::open(&bytes).unwrap();
    for key in [&b"x"[..], b"y", b"z"] {
        assert_eq!(a.get(key).unwrap(), b.get(key).unwrap());
    }
    assert_eq!(a.keys().unwrap(), b.keys().unwrap());
    assert_eq!(a.len(), b.len());
}

#[test]
fn flat_open_rejects_bad_magic() {
    let mut bytes = build(&[(b"a", b"b")]);
    bytes[0] = b'X';
    assert_eq!(BTreeDatStore::open(&bytes).err(), Some(StoreError::BadMagic));
}

#[test]
fn flat_open_rejects_short_file() {
    let bytes = vec![0u8; 10];
    assert_eq!(BTreeDatStore::open(&bytes).err(), Some(StoreError::Truncated));
}

#[test]
fn flat_open_rejects_heap_past_end() {
    let bytes = build(&[(b"a", b"b")]);
    let cut = &bytes[..80];
    assert_eq!(BTreeDatStore::open(cut).err(), Some(StoreError::BadLayout));
}

#[test]
fn flat_get_reports_payload_past_end() {
    let mut bytes = build(&[(b"a", b"b")]);
    // payload length field of the only entry
    bytes[77..85].copy_from_slice(&50u64.to_le_bytes());
    let store = BTreeDatStore::open(&bytes).unwrap();
    assert_eq!(store.get(b"a").err(), Some(StoreError::Truncated));
}

#[test]
fn flat_backend_name() {
    assert_eq!(BTreeDatStore::backend_name(), "B-tree DAT");
}

#[test]
fn flat_single_value_of_hundreds_of_kib() {
    let big: Vec<u8> = (0..600_000u32).map(|i| (i.wrapping_mul(31) % 251) as u8).collect();
    let bytes = build(&[(b"big", &big), (b"small", b"s")]);
    let store = BTreeDatStore::open(&bytes).unwrap();
    assert_eq!(store.get(b"big").unwrap(), Some(big));
    assert_eq!(store.get(b"small").unwrap(), Some(b"s".to_vec()));
}

fn flat_header(index_start: u64, heap_start: u64, count: u64) -> Vec<u8> {
    let mut h: Vec<u8> = b"BTREEIDX".to_vec();
    h.extend_from_slice(&index_start.to_le_bytes());
    h.extend_from_slice(&heap_start.to_le_bytes());
    h.extend_from_slice(&count.to_le_bytes());
    h.extend_from_slice(&[0u8; 32]);
    h
}

#[test]
fn flat_open_rejects_index_without_whole_entries() {
    let mut bytes = flat_header(64, 70, 0);
    bytes.extend_from_slice(&[0u8; 6]);
    assert_eq!(BTreeDatStore::open(&bytes).err(), Some(StoreError::BadLayout));
}

#[test]
fn flat_open_rejects_count_mismatch() {
    let mut bytes = build(&[(b"a", b"b"), (b"c", b"d")]);
    bytes[24..32].copy_from_slice(&1u64.to_le_bytes());
    assert_eq!(BTreeDatStore::open(&bytes).err(), Some(StoreError::BadLayout));
    bytes[24..32].copy_from_slice(&3u64.to_le_bytes());
    assert_eq!(BTreeDatStore::open(&bytes).err(), Some(StoreError::BadLayout));
}

#[test]
fn flat_open_rejects_misplaced_index_start() {
    let mut bytes = build(&[(b"a", b"b")]);
    bytes[8..16].copy_from_slice(&65u64.to_le_bytes());
    assert_eq!(BTreeDatStore::open(&bytes).err(), Some(StoreError::BadLayout));
    let mut bytes = build(&[(b"a", b"b")]);
    bytes[16..24].copy_from_slice(&84u64.to_le_bytes());
    assert_eq!(BTreeDatStore::open(&bytes).err(), Some(StoreError::BadLayout));
}

#[test]
fn flat_open_accepts_empty_index_region() {
    let bytes = flat_header(64, 64, 0);
    let store = BTreeDatStore::open(&bytes).unwrap();
    assert_eq!(store.len(), 0);
}
