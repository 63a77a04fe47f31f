//! Tests of the key-value store: gets, puts, batches, and reopening a store
//! over the segment files an earlier store wrote.

use kvwal::{KVStore, NamedFile, WriteBatch};

fn get_store(files: Vec<NamedFile>) -> KVStore {
    KVStore::open("kv", files).expect("")
}

#[test]
fn empty_store_returns_none() {
    let store = KVStore::new(true, "kv", Vec::new()).expect("");
    assert_eq!(store.get("missing"), None);
}

#[test]
fn put_and_get_roundtrip() {
    let mut store = get_store(Vec::new());

    store.put("foo", "bar").unwrap();
    assert_eq!(store.get("foo"), Some(&"bar".to_string()));

    // Overwrite
    store.put("foo", "baz").unwrap();
    assert_eq!(store.get("foo"), Some(&"baz".to_string()));
}

#[test]
fn batch_put_extend_store() {
    let mut store = get_store(Vec::new());

    let mut batch = WriteBatch::default();
    batch.put("k1", "v1");
    batch.put("k2", "v2");
    batch.put("k3", "v3");

    store.put_batch(batch).unwrap();

    assert_eq!(store.get("k1"), Some(&"v1".to_string()));
    assert_eq!(store.get("k2"), Some(&"v2".to_string()));
    assert_eq!(store.get("k3"), Some(&"v3".to_string()));
}

#[test]
fn wal_persists_between_sessions() {
    let files = {
        let mut store = get_store(Vec::new());
        store.put("a", "1").unwrap();

        let mut batch = WriteBatch::default();
        batch.put("b", "2");
        batch.put("c", "3");
        store.put_batch(batch).unwrap();
        store.segment_files()
    };

    let store = get_store(files);

    assert_eq!(store.get("a"), Some(&"1".to_string()));
    assert_eq!(store.get("b"), Some(&"2".to_string()));
    assert_eq!(store.get("c"), Some(&"3".to_string()));
}

#[test]
fn batch_and_single_put_mix_order() {
    let mut store = get_store(Vec::new());
    // start with batch
    let mut batch = WriteBatch::default();
    batch.put("b1", "x");
    batch.put("b2", "y");
    store.put_batch(batch).unwrap();

    // then single
    store.put("single", "z").unwrap();

    assert_eq!(store.get("b1"), Some(&"x".to_string()));
    assert_eq!(store.get("b2"), Some(&"y".to_string()));
    assert_eq!(store.get("single"), Some(&"z".to_string()));
}

#[test]
fn overwrite_after_reopen() {
    let files = {
        let mut store = get_store(Vec::new());
        store.put("dup", "old").unwrap();
        store.segment_files()
    };
    let files = {
        let mut store = get_store(files);
        assert_eq!(store.get("dup"), Some(&"old".to_string()));
        store.put("dup", "new").unwrap();
        assert_eq!(store.get("dup"), Some(&"new".to_string()));
        store.segment_files()
    };
    {
        let store = get_store(files);
        assert_eq!(store.get("dup"), Some(&"new".to_string()));
    }
}

#[test]
fn batch_put_empty_is_noop() {
    let mut store = get_store(Vec::new());

    let batch = WriteBatch::default(); // empty
    store.put_batch(batch).unwrap();

    assert!(store.get("anything").is_none());
}

#[test]
fn overrides_existing_file_if_new() {
    let files = {
        let mut store = KVStore::new(true, "kv", Vec::new()).expect("err with store");
        store.put("hello", "world").unwrap();
        store.segment_files()
    };
    let store2 = KVStore::new(true, "kv", files).expect("err with store");

    assert!(store2.get("hello").is_none());
}

#[test]
fn batch_builder_overwrites_within_batch() {
    let mut store = get_store(Vec::new());

    let mut batch = WriteBatch::default();
    batch.put("k", "1");
    batch.put("k", "2");
    store.put_batch(batch).unwrap();

    assert_eq!(store.get("k"), Some(&"2".to_string()));
}

#[test]
fn replay_same_files_twice_is_deterministic() {
    let files = {
        let mut store = get_store(Vec::new());
        store.put("x", "1").unwrap();
        store.put("y", "2").unwrap();
        store.put("x", "3").unwrap();
        store.segment_files()
    };
    let copy: Vec<NamedFile> = files
        .iter()
        .map(|f| NamedFile { name: f.name.clone(), data: f.data.clone() })
        .collect();

    let s1 = get_store(files);
    let s2 = get_store(copy);
    assert_eq!(s1.get("x"), s2.get("x"));
    assert_eq!(s1.get("y"), s2.get("y"));
    assert_eq!(s1.get("x"), Some(&"3".to_string()));
}

#[test]
fn truncate_create_put_batch_close_reopen() {
    let files = {
        let mut store = KVStore::new(true, "p", Vec::new()).expect("");
        store.put("a", "1").unwrap();
        let mut batch = WriteBatch::default();
        batch.put("b", "2");
        batch.put("c", "3");
        store.put_batch(batch).unwrap();
        store.segment_files()
    };
    let store = KVStore::open("p", files).expect("");
    assert_eq!(store.get("a"), Some(&"1".to_string()));
    assert_eq!(store.get("b"), Some(&"2".to_string()));
    assert_eq!(store.get("c"), Some(&"3".to_string()));
    assert_eq!(store.get("missing"), None);
}

#[test]
fn truncated_tail_on_last_segment_recovers_prefix() {
    let mut files = {
        let mut store = get_store(Vec::new());
        store.put("a", "1").unwrap();
        store.put("b", "2").unwrap();
        store.segment_files()
    };
    // cut the last byte: the second frame now has a truncated payload,
    // which recovery treats as the crash point
    assert_eq!(files.len(), 1);
    files[0].data.pop();

    let store = get_store(files);
    assert_eq!(store.get("a"), Some(&"1".to_string()));
    assert_eq!(store.get("b"), None);
}
