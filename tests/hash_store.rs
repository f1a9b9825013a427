use build_an_index::dat_hash::{hash_key, index_len, key_of_record, value_of_record, ProbeOutcome};
use build_an_index::{BlobStore, BlobStoreBuilder, HashDatStore, HashDatStoreBuilder, HashIndex, StoreError};
use std::collections::hash_map::DefaultHasher;
use std::hash::{Hash, Hasher};

#[test]
fn test_hash_roundtrip() {
    let bytes = {
        let mut builder = HashDatStoreBuilder::create();
        builder.insert(b"key1", b"value1").unwrap();
        builder.insert(b"key2", b"value2").unwrap();
        builder.insert(b"key3", b"value3").unwrap();
        builder.finish().unwrap()
    };

    let store = HashDatStore::open(&bytes).unwrap();

    assert_eq!(store.len(), 3);
    assert_eq!(store.get(b"key1").unwrap(), Some(b"value1".to_vec()));
    assert_eq!(store.get(b"key2").unwrap(), Some(b"value2".to_vec()));
    assert_eq!(store.get(b"key3").unwrap(), Some(b"value3".to_vec()));
    assert_eq!(store.get(b"nonexistent").unwrap(), None);
}

#[test]
fn test_hash_keys() {
    let bytes = {
        let mut builder = HashDatStoreBuilder::create();
        builder.insert(b"alpha", b"a").unwrap();
        builder.insert(b"beta", b"b").unwrap();
        builder.finish().unwrap()
    };

    let store = HashDatStore::open(&bytes).unwrap();
    let mut keys = store.keys().unwrap();
    keys.sort();

    assert_eq!(keys, vec![b"alpha".to_vec(), b"beta".to_vec()]);
}

#[test]
fn test_hash_binary_data() {
    let binary_key: Vec<u8> = (0..255).collect();
    let binary_value: Vec<u8> = (0..1000).map(|i| (i % 256) as u8).collect();

    let bytes = {
        let mut builder = HashDatStoreBuilder::create();
        builder.insert(&binary_key, &binary_value).unwrap();
        builder.finish().unwrap()
    };

    let store = HashDatStore::open(&bytes).unwrap();
    assert_eq!(store.get(&binary_key).unwrap(), Some(binary_value));
}

#[test]
fn test_hash_collision_handling() {
    let num_entries = 100;

    let bytes = {
        let mut builder = HashDatStoreBuilder::create();
        for i in 0..num_entries {
            let key = format!("key_{:04}", i);
            let value = format!("value_{:04}", i);
            builder.insert(key.as_bytes(), value.as_bytes()).unwrap();
        }
        builder.finish().unwrap()
    };

    let store = HashDatStore::open(&bytes).unwrap();
    assert_eq!(store.len(), num_entries);

    for i in 0..num_entries {
        let key = format!("key_{:04}", i);
        let expected_value = format!("value_{:04}", i);
        assert_eq!(
            store.get(key.as_bytes()).unwrap(),
            Some(expected_value.into_bytes())
        );
    }
}

#[test]
fn test_hash_large_values() {
    let large_value: Vec<u8> = (0..100_000).map(|i| (i % 256) as u8).collect();

    let bytes = {
        let mut builder = HashDatStoreBuilder::create();
        builder.insert(b"large", &large_value).unwrap();
        builder.finish().unwrap()
    };

    let store = HashDatStore::open(&bytes).unwrap();
    assert_eq!(store.get(b"large").unwrap(), Some(large_value));
}

#[test]
fn test_hash_empty_store() {
    let bytes = {
        let builder = HashDatStoreBuilder::create();
        builder.finish().unwrap()
    };

    let store = HashDatStore::open(&bytes).unwrap();
    assert_eq!(store.len(), 0);
    assert!(store.is_empty());
}

fn build(pairs: &[(&[u8], &[u8])]) -> Vec<u8> {
    let mut builder = HashDatStoreBuilder::create();
    for (k, v) in pairs {
        builder.insert(k, v).unwrap();
    }
    builder.finish().unwrap()
}

fn header_field(bytes: &[u8], at: usize) -> u64 {
    u64::from_le_bytes(bytes[at..at + 8].try_into().unwrap())
}

#[test]
fn hash_empty_store_lists_no_keys_and_misses() {
    let bytes = build(&[]);
    assert_eq!(header_field(&bytes, 8), 1);
    assert_eq!(header_field(&bytes, 16), 88);
    assert_eq!(bytes.len(), 88);
    let store = HashDatStore::open(&bytes).unwrap();
    assert_eq!(store.keys().unwrap(), Vec::<Vec<u8>>::new());
    assert_eq!(store.get(b"missing").unwrap(), None);
}

#[test]
fn hash_bucket_count_keeps_load_under_seven_tenths() {
    let keys: Vec<String> = (0..100).map(|i| format!("key_{:04}", i)).collect();
    let mut builder = HashDatStoreBuilder::create();
    for k in &keys {
        builder.insert(k.as_bytes(), b"v").unwrap();
    }
    let bytes = builder.finish().unwrap();
    assert_eq!(header_field(&bytes, 8), 143);
    assert_eq!(header_field(&bytes, 16), 64 + 24 * 143);
    assert_eq!(header_field(&bytes, 24), 100);
    let seven = build(&[(b"1", b""), (b"2", b""), (b"3", b""), (b"4", b""), (b"5", b""), (b"6", b""), (b"7", b"")]);
    assert_eq!(header_field(&seven, 8), 10);
}

#[test]
fn hash_full_table_probe_chains_resolve() {
    let pairs: Vec<(Vec<u8>, Vec<u8>)> = (0..=255u8).map(|b| (vec![b, 0, 255 - b], vec![b; (b % 7) as usize])).collect();
    let mut builder = HashDatStoreBuilder::create();
    for (k, v) in &pairs {
        builder.insert(k, v).unwrap();
    }
    let bytes = builder.finish().unwrap();
    let store = HashDatStore::open(&bytes).unwrap();
    for (k, v) in &pairs {
        assert_eq!(store.get(k).unwrap(), Some(v.clone()));
    }
    assert_eq!(store.get(&[1, 2, 3]).unwrap(), None);
    let mut keys = store.keys().unwrap();
    keys.sort();
    let mut expected: Vec<Vec<u8>> = pairs.iter().map(|p| p.0.clone()).collect();
    expected.sort();
    assert_eq!(keys, expected);
}

#[test]
fn hash_duplicate_keys_are_both_kept() {
    let bytes = build(&[(b"k", b"first"), (b"k", b"second")]);
    let store = HashDatStore::open(&bytes).unwrap();
    assert_eq!(store.len(), 2);
    assert_eq!(store.get(b"k").unwrap(), Some(b"first".to_vec()));
    assert_eq!(store.keys().unwrap(), vec![b"k".to_vec(), b"k".to_vec()]);
}

#[test]
fn hash_open_twice_gives_identical_answers() {
    let bytes = build(&[(b"x", b"1"), (b"y", b"2")]);
    let a = HashDatStore::open(&bytes).unwrap();
    let b = HashDatStore::open(&bytes).unwrap();
    for key in [&b"x"[..], b"y", b"z"] {
        assert_eq!(a.get(key).unwrap(), b.get(key).unwrap());
    }
    assert_eq!(a.keys().unwrap(), b.keys().unwrap());
}

#[test]
fn hash_key_is_default_hasher_of_slice() {
    let key: &[u8] = b"some key";
    let mut hasher = DefaultHasher::new();
    key.hash(&mut hasher);
    let expected = hasher.finish();
    assert_ne!(expected, 0);
    assert_eq!(hash_key(key), expected);
    assert_ne!(hash_key(b"a"), hash_key(b"b"));
}

#[test]
fn hash_open_rejects_bad_magic_and_layout() {
    let mut bytes = build(&[(b"a", b"b")]);
    bytes[7] = b'2';
    assert_eq!(HashDatStore::open(&bytes).err(), Some(StoreError::BadMagic));

    let mut bytes = build(&[(b"a", b"b")]);
    bytes[16..24].copy_from_slice(&65u64.to_le_bytes());
    assert_eq!(HashDatStore::open(&bytes).err(), Some(StoreError::BadLayout));

    let bytes = build(&[(b"a", b"b")]);
    assert_eq!(HashDatStore::open(&bytes[..70]).err(), Some(StoreError::BadLayout));
    assert_eq!(HashDatStore::open(&bytes[..20]).err(), Some(StoreError::Truncated));
}

#[test]
fn hash_get_reports_record_past_end() {
    let bytes = build(&[(b"a", b"bcd")]);
    let store_ok = HashDatStore::open(&bytes).unwrap();
    assert_eq!(store_ok.get(b"a").unwrap(), Some(b"bcd".to_vec()));
    let cut = &bytes[..bytes.len() - 1];
    let store = HashDatStore::open(cut).unwrap();
    assert_eq!(store.get(b"a").err(), Some(StoreError::Truncated));
}

#[test]
fn hash_index_probe_protocol() {
    let bytes = build(&[(b"alpha", b"1"), (b"beta", b"22")]);
    let heap_start = index_len(&bytes[..64]).unwrap() as usize;
    assert_eq!(heap_start, 64 + 24 * 3);
    let index = HashIndex::open(&bytes[..heap_start]).unwrap();
    assert_eq!(index.len(), 2);
    let h = hash_key(b"beta");
    let step = index.probe(h, 0).unwrap();
    let bucket = index.bucket(index.probe_slot(h, step));
    let record = &bytes[bucket.offset as usize..(bucket.offset + bucket.len) as usize];
    assert_eq!(key_of_record(record).unwrap(), b"beta");
    assert_eq!(value_of_record(record).unwrap(), b"22".to_vec());
}

#[test]
fn hash_record_parsing_errors() {
    assert_eq!(value_of_record(&[1, 0]).err(), Some(StoreError::Truncated));
    assert_eq!(key_of_record(&[5, 0, 0, 0, b'a']).err(), Some(StoreError::Truncated));
    assert_eq!(value_of_record(&[1, 0, 0, 0, b'k', b'v']).unwrap(), b"v".to_vec());
}

#[test]
fn hash_backend_name() {
    assert_eq!(HashDatStore::backend_name(), "Custom Offset File Format");
}

#[test]
fn hash_single_value_of_hundreds_of_kib() {
    let big: Vec<u8> = (0..600_000u32).map(|i| (i.wrapping_mul(31) % 251) as u8).collect();
    let bytes = build(&[(b"big", &big), (b"small", b"s")]);
    let store = HashDatStore::open(&bytes).unwrap();
    assert_eq!(store.get(b"big").unwrap(), Some(big));
    assert_eq!(store.get(b"small").unwrap(), Some(b"s".to_vec()));
}

#[test]
fn hash_open_rejects_count_mismatch() {
    let mut bytes = build(&[(b"a", b"1"), (b"b", b"2")]);
    bytes[24..32].copy_from_slice(&1u64.to_le_bytes());
    assert_eq!(HashDatStore::open(&bytes).err(), Some(StoreError::BadLayout));
    let bytes = build(&[(b"a", b"1"), (b"b", b"2")]);
    let heap_start = index_len(&bytes[..64]).unwrap() as usize;
    let mut prefix = bytes[..heap_start].to_vec();
    prefix[24..32].copy_from_slice(&2u64.to_le_bytes());
    assert!(HashIndex::open(&prefix).is_ok());
    prefix[24..32].copy_from_slice(&0u64.to_le_bytes());
    assert_eq!(HashIndex::open(&prefix).err(), Some(StoreError::BadLayout));
}

#[test]
fn hash_step_functions_drive_a_lookup() {
    let pairs: Vec<(Vec<u8>, Vec<u8>)> = (0..40u8).map(|i| (vec![b'k', i], vec![i; 3])).collect();
    let mut builder = HashDatStoreBuilder::create();
    for (k, v) in &pairs {
        builder.insert(k, v).unwrap();
    }
    let bytes = builder.finish().unwrap();
    let heap_start = index_len(&bytes[..64]).unwrap() as usize;
    let index = HashIndex::open(&bytes[..heap_start]).unwrap();
    let lookup = |key: &[u8]| -> Option<Vec<u8>> {
        let h = hash_key(key);
        let mut candidate = index.probe(h, 0);
        while let Some(step) = candidate {
            let b = index.bucket(index.probe_slot(h, step));
            let record = &bytes[b.offset as usize..(b.offset + b.len) as usize];
            let stored = key_of_record(record).unwrap();
            match index.after_candidate(key, h, step, stored) {
                ProbeOutcome::Found => return Some(value_of_record(record).unwrap()),
                ProbeOutcome::Next(next) => {
                    assert!(next > step);
                    candidate = Some(next);
                }
                ProbeOutcome::Absent => candidate = None,
            }
        }
        None
    };
    for (k, v) in &pairs {
        assert_eq!(lookup(k), Some(v.clone()));
    }
    assert_eq!(lookup(b"missing"), None);
    let mut listed = Vec::new();
    let mut from = 0;
    while let Some(q) = index.next_occupied(from) {
        assert!(q >= from);
        let b = index.bucket(q);
        assert_ne!(b.key_hash, 0);
        listed.push(key_of_record(&bytes[b.offset as usize..(b.offset + b.len) as usize]).unwrap().to_vec());
        from = q + 1;
    }
    listed.sort();
    let mut expected: Vec<Vec<u8>> = pairs.iter().map(|p| p.0.clone()).collect();
    expected.sort();
    assert_eq!(listed, expected);
}

#[test]
fn hash_after_candidate_reports_found_on_equal_key() {
    let bytes = build(&[(b"only", b"v")]);
    let store_index = HashIndex::open(&bytes[..index_len(&bytes[..64]).unwrap() as usize]).unwrap();
    let h = hash_key(b"only");
    let step = store_index.probe(h, 0).unwrap();
    assert_eq!(store_index.after_candidate(b"only", h, step, b"only"), ProbeOutcome::Found);
    assert_ne!(store_index.after_candidate(b"only", h, step, b"other"), ProbeOutcome::Found);
}
