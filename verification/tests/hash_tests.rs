use make_ultra::hashes::{encode_cache, hash_bytes, load_cache, CachePlan, HashStore, LoadNote};

#[test]
fn fnv_hash_known_values() {
    assert_eq!(hash_bytes(&Vec::new()), 0xcbf29ce484222325);
    assert_eq!(hash_bytes(&vec![b'a']), 0xaf63dc4c8601ec8c);
    assert_eq!(hash_bytes(&b"hello".to_vec()), 0xa430d84680aabd0b);
}

#[test]
fn fnv_hash_is_deterministic_and_content_sensitive() {
    let a = hash_bytes(&b"same bytes".to_vec());
    let b = hash_bytes(&b"same bytes".to_vec());
    let c = hash_bytes(&b"other bytes".to_vec());
    assert_eq!(a, b);
    assert_ne!(a, c);
}

#[test]
fn store_lookup_and_overwrite() {
    let mut st = HashStore::empty();
    assert!(st.is_empty());
    assert_eq!(st.lookup("a.js"), None);
    st.add(String::from("a.js"), 1);
    st.add(String::from("a.js"), 2);
    st.add(String::from("b.js"), 3);
    assert!(!st.is_empty());
    assert_eq!(st.lookup("a.js"), Some(2));
    assert_eq!(st.lookup("b.js"), Some(3));
    let copy = st.duplicate();
    assert_eq!(copy.lookup("a.js"), Some(2));
}

#[test]
fn cache_round_trip_is_compressed() {
    let mut st = HashStore::empty();
    st.add(String::from("a.js"), 77);
    st.add(String::from("dir/b.js"), 0xdead_beef_dead_beef);
    let bytes = match encode_cache(&st, false) {
        CachePlan::Write(b) => b,
        _ => panic!("a non-empty store must be written"),
    };
    let (loaded, note) = load_cache(Some(bytes));
    assert!(matches!(note, LoadNote::Loaded));
    let loaded = loaded.unwrap();
    assert_eq!(loaded.lookup("a.js"), Some(77));
    assert_eq!(loaded.lookup("dir/b.js"), Some(0xdead_beef_dead_beef));
    assert_eq!(loaded.lookup("c.js"), None);
}

#[test]
fn cache_skip_when_dry_or_empty() {
    let empty = HashStore::empty();
    assert!(matches!(encode_cache(&empty, false), CachePlan::Skip));
    let mut st = HashStore::empty();
    st.add(String::from("a"), 1);
    assert!(matches!(encode_cache(&st, true), CachePlan::Skip));
}

#[test]
fn cache_missing_file_and_corrupt_bytes() {
    let (st, note) = load_cache(None);
    assert!(st.is_none());
    assert!(matches!(note, LoadNote::MissingFile));
    let (st2, note2) = load_cache(Some(vec![1, 2, 3, 4, 5]));
    assert!(st2.is_none());
    assert!(matches!(note2, LoadNote::Corrupt));
}

#[test]
fn legacy_uncompressed_cache_still_loads() {
    let mut map: hashbrown::HashMap<String, u64> = hashbrown::HashMap::new();
    map.insert(String::from("a.js"), 11);
    let raw = bincode::serialize(&map).unwrap();
    let (loaded, note) = load_cache(Some(raw));
    assert!(matches!(note, LoadNote::LegacyLoaded));
    assert_eq!(loaded.unwrap().lookup("a.js"), Some(11));
}
