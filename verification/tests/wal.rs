//! Tests of the segmented log itself: rollover at the size threshold,
//! recovery order across segments, index assignment, and the error cases of
//! opening a damaged or misnamed log directory.

use kvwal::{
    KVStore, NamedFile, SegmentedWal, WALConfig, WalEntry, WalEntryIterator, WalEntryView,
    WalError,
};

fn small_cfg(truncate: bool) -> WALConfig {
    WALConfig { path: "kv".to_owned(), truncate, start_index: 1, max_log_size: 64 }
}

#[test]
fn rollover_boundary() {
    let mut wal = SegmentedWal::open(small_cfg(true), Vec::new()).unwrap();
    // a put of this size takes 20 header bytes plus a payload of 19:
    // two of them pass the 64-byte threshold
    wal.write(WalEntry::Put("key".to_owned(), "value".to_owned())).unwrap();
    assert_eq!(wal.segment_files().len(), 1);
    wal.write(WalEntry::Put("ke2".to_owned(), "valu2".to_owned())).unwrap();
    let files = wal.segment_files();
    assert_eq!(files.len(), 1);
    let full_size = files[0].data.len();
    assert!(full_size as u64 >= 64);

    // the open segment has reached the threshold: the next append lands in
    // a newly created segment file
    wal.write(WalEntry::Put("ke3".to_owned(), "valu3".to_owned())).unwrap();
    let files = wal.segment_files();
    assert_eq!(files.len(), 2);
    assert_eq!(files[0].data.len(), full_size);

    // and the old segment's file never grows afterwards
    wal.write(WalEntry::Put("ke4".to_owned(), "valu4".to_owned())).unwrap();
    assert_eq!(wal.segment_files()[0].data.len(), full_size);
}

#[test]
fn indices_are_gapless_across_rollovers() {
    let mut wal = SegmentedWal::open(small_cfg(true), Vec::new()).unwrap();
    for i in 0..7u64 {
        wal.write(WalEntry::Put(format!("key{}", i), "v".to_owned())).unwrap();
    }
    let files = wal.segment_files();
    assert!(files.len() >= 3);

    let mut it = WalEntryIterator::new("kv", files).unwrap();
    let mut expected: u64 = 1;
    while let Some(frame) = it.read_next().unwrap() {
        assert_eq!(frame.index, expected);
        assert_eq!(frame.generation, 0);
        expected += 1;
    }
    assert_eq!(expected, 8);
}

#[test]
fn cross_segment_recovery_order() {
    let files = {
        let mut store = KVStore::from_walcfg(small_cfg(true), Vec::new()).unwrap();
        for i in 0..6u64 {
            let key = format!("k{}", i);
            let value = format!("v{}", i);
            store.put(&key, &value).unwrap();
        }
        // the same key again: replay order decides which value survives
        store.put("k2", "late").unwrap();
        store.segment_files()
    };
    assert!(files.len() >= 3);

    // hand the listing over in scrambled order: recovery sorts by start index
    let mut scrambled = files;
    scrambled.reverse();
    let store = KVStore::from_walcfg(small_cfg(false), scrambled).unwrap();
    for i in 0..6u64 {
        let key = format!("k{}", i);
        if i == 2 {
            assert_eq!(store.get(&key), Some(&"late".to_string()));
        } else {
            assert_eq!(store.get(&key), Some(&format!("v{}", i)));
        }
    }
}

#[test]
fn iterator_reads_entries_in_append_order() {
    let mut wal = SegmentedWal::open(small_cfg(true), Vec::new()).unwrap();
    wal.write(WalEntry::Put("a".to_owned(), "1".to_owned())).unwrap();
    wal.write(WalEntry::Put("b".to_owned(), "2".to_owned())).unwrap();

    let mut it = WalEntryIterator::new("kv", wal.segment_files()).unwrap();
    let f1 = it.read_next().unwrap().unwrap();
    match f1.zero_copy().unwrap() {
        WalEntryView::Put(k, v) => {
            assert_eq!(k, "a");
            assert_eq!(v, "1");
        },
        _ => panic!("expected a put entry"),
    }
    let f2 = it.read_next().unwrap().unwrap();
    match f2.zero_copy().unwrap() {
        WalEntryView::Put(k, v) => {
            assert_eq!(k, "b");
            assert_eq!(v, "2");
        },
        _ => panic!("expected a put entry"),
    }
    assert!(it.read_next().unwrap().is_none());
}

#[test]
fn bad_segment_name_fails_open() {
    let dir = vec![NamedFile { name: "kv_x.log".to_owned(), data: Vec::new() }];
    assert_eq!(KVStore::open("kv", dir).err(), Some(WalError::BadSegmentName));
}

#[test]
fn leading_zero_segment_name_fails_open() {
    let dir = vec![NamedFile { name: "kv_01.log".to_owned(), data: Vec::new() }];
    assert_eq!(KVStore::open("kv", dir).err(), Some(WalError::BadSegmentName));
}

#[test]
fn unrelated_files_are_ignored() {
    let dir = vec![NamedFile { name: "readme.txt".to_owned(), data: vec![1, 2, 3] }];
    let store = KVStore::open("kv", dir).unwrap();
    assert!(store.get("anything").is_none());
}

#[test]
fn duplicate_segment_fails_open() {
    let dir = vec![
        NamedFile { name: "kv_1.log".to_owned(), data: Vec::new() },
        NamedFile { name: "kv_1.log".to_owned(), data: Vec::new() },
    ];
    assert_eq!(KVStore::open("kv", dir).err(), Some(WalError::DuplicateSegment));
}

#[test]
fn truncated_tail_mid_log_is_corruption() {
    let mut files = {
        let mut store = KVStore::from_walcfg(small_cfg(true), Vec::new()).unwrap();
        for i in 0..6u64 {
            let key = format!("k{}", i);
            store.put(&key, "v").unwrap();
        }
        store.segment_files()
    };
    assert!(files.len() >= 2);
    // damage a non-final segment: that is corruption, not a crash point
    files[0].data.pop();
    let r = KVStore::from_walcfg(small_cfg(false), files);
    assert_eq!(r.err(), Some(WalError::TruncatedTail));
}

#[test]
fn garbage_payload_is_corruption() {
    // a whole frame whose payload is no encoded entry
    let mut data = Vec::new();
    data.extend_from_slice(&1u64.to_le_bytes());
    data.extend_from_slice(&0u64.to_le_bytes());
    data.extend_from_slice(&1u32.to_le_bytes());
    data.push(0xff);
    let dir = vec![NamedFile { name: "kv_1.log".to_owned(), data }];
    assert_eq!(KVStore::open("kv", dir).err(), Some(WalError::Deserialization));
}

#[test]
fn single_file_wal_round_trips() {
    let cfg = kvwal::wal::WALConfig { path: "one.log".to_owned(), truncate: true };
    let mut wal = kvwal::WriteAheadLog::open(cfg, Vec::new());
    wal.write(WalEntry::Put("a".to_owned(), "1".to_owned())).unwrap();
    wal.write(WalEntry::Put("b".to_owned(), "2".to_owned())).unwrap();
    let bytes = wal.data.clone();

    let cfg = kvwal::wal::WALConfig { path: "one.log".to_owned(), truncate: false };
    let mut wal2 = kvwal::WriteAheadLog::open(cfg, bytes);
    let all = wal2.read();
    assert_eq!(all.len(), 2);
    assert_eq!(all[0], Ok(WalEntry::Put("a".to_owned(), "1".to_owned())));
    assert_eq!(all[1], Ok(WalEntry::Put("b".to_owned(), "2".to_owned())));
    assert_eq!(wal2.last_log_index, 2);
}

#[test]
fn single_file_wal_read_next_tracks_indices() {
    let cfg = kvwal::wal::WALConfig { path: "one.log".to_owned(), truncate: true };
    let mut wal = kvwal::WriteAheadLog::open(cfg, Vec::new());
    wal.write(WalEntry::Put("k".to_owned(), "v".to_owned())).unwrap();

    let f = wal.read_next().unwrap().unwrap();
    assert_eq!(f.index, 1);
    assert_eq!(f.generation, 0);
    assert!(wal.read_next().unwrap().is_none());
}
