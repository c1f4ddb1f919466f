use kvstore::memtable::MemTable;
use kvstore::segment::Segment;
use kvstore::wal::{Op, WalRecord};
use kvstore::{Batch, Config, Error, Store, SyncMode};

fn small_config(threshold: usize, trigger: usize) -> Config {
    Config {
        memtable_size_threshold: threshold,
        compaction_trigger_segment_count: trigger,
        wal_sync_mode: SyncMode::Always,
    }
}

fn default_store() -> Store {
    Store::new(small_config(1 << 20, 4))
}

#[test]
fn put_and_get() {
    let mut store = default_store();
    let mut batch = store.batch().unwrap();
    batch.put(&[0, 0], &[0, 0, 0]).unwrap();
    batch.put(&[1, 1], &[1, 1, 1]).unwrap();
    store.commit(batch).unwrap();

    assert_eq!(Some(vec![0, 0, 0]), store.get(&[0, 0]).unwrap());
    assert_eq!(Some(vec![1, 1, 1]), store.get(&[1, 1]).unwrap());
    assert_eq!(None, store.get(&[2, 2]).unwrap())
}

#[test]
fn key_exists_after_commit() {
    let mut store = default_store();
    assert!(!store.contains_key(&[0, 0]).unwrap());

    let mut batch = store.batch().unwrap();
    batch.put(&[0, 0], &[0, 0, 0]).unwrap();
    store.commit(batch).unwrap();

    assert!(store.contains_key(&[0, 0]).unwrap());
}

#[test]
fn delete() {
    let mut store = default_store();
    let mut batch = store.batch().unwrap();
    batch.put(&[0, 0], &[0, 0, 0]).unwrap();
    store.commit(batch).unwrap();
    assert_eq!(Some(vec![0, 0, 0]), store.get(&[0, 0]).unwrap());

    let mut batch = store.batch().unwrap();
    batch.delete(&[0, 0]).unwrap();
    store.commit(batch).unwrap();
    assert_eq!(None, store.get(&[0, 0]).unwrap());
}

#[test]
fn batch_then_lookups() {
    let mut store = default_store();
    let mut batch = Batch::new();
    batch.put(b"k1", b"v1").unwrap();
    batch.put(b"k2", b"v2").unwrap();
    assert_eq!(batch.len(), 2);
    store.commit(batch).unwrap();
    assert_eq!(Some(b"v1".to_vec()), store.get(b"k1").unwrap());
    assert_eq!(Some(b"v2".to_vec()), store.get(b"k2").unwrap());
    assert_eq!(None, store.get(b"k3").unwrap());
}

#[test]
fn delete_after_put_in_later_batch() {
    let mut store = default_store();
    let mut batch = Batch::new();
    batch.put(b"k1", b"v1").unwrap();
    store.commit(batch).unwrap();
    let mut batch = Batch::new();
    batch.delete(b"k1").unwrap();
    store.commit(batch).unwrap();
    assert_eq!(None, store.get(b"k1").unwrap());
    assert!(!store.contains_key(b"k1").unwrap());
}

#[test]
fn empty_store_and_delete_of_absent_key() {
    let mut store = default_store();
    assert_eq!(None, store.get(b"").unwrap());
    assert_eq!(None, store.get(b"anything").unwrap());
    let mut batch = Batch::new();
    batch.delete(b"never").unwrap();
    assert_eq!(Ok(()), store.commit(batch));
    assert_eq!(None, store.get(b"never").unwrap());
}

#[test]
fn latest_write_in_one_batch_wins() {
    let mut store = default_store();
    let mut batch = Batch::new();
    batch.put(b"a", b"1").unwrap();
    batch.put(b"a", b"2").unwrap();
    batch.delete(b"b").unwrap();
    batch.put(b"b", b"3").unwrap();
    batch.put(b"c", b"4").unwrap();
    batch.delete(b"c").unwrap();
    store.commit(batch).unwrap();
    assert_eq!(Some(b"2".to_vec()), store.get(b"a").unwrap());
    assert_eq!(Some(b"3".to_vec()), store.get(b"b").unwrap());
    assert_eq!(None, store.get(b"c").unwrap());
    assert_eq!(7, store.next_sequence());
}

#[test]
fn empty_value_is_present() {
    let mut store = default_store();
    let mut batch = Batch::new();
    batch.put(b"e", b"").unwrap();
    store.commit(batch).unwrap();
    assert_eq!(Some(Vec::new()), store.get(b"e").unwrap());
    assert!(store.contains_key(b"e").unwrap());
}

#[test]
fn flush_and_compaction_keep_latest_values() {
    // Any write beyond 8 bytes flushes; two segments trigger a compaction.
    let mut store = Store::new(small_config(8, 2));
    let mut batch = Batch::new();
    batch.put(b"key-a", b"first").unwrap();
    batch.put(b"key-b", b"second").unwrap();
    store.commit(batch).unwrap();
    assert_eq!(1, store.segment_len());
    assert_eq!(0, store.wal_records());

    let mut batch = Batch::new();
    batch.put(b"key-a", b"newer").unwrap();
    batch.delete(b"key-b").unwrap();
    batch.put(b"key-c", b"third").unwrap();
    store.commit(batch).unwrap();
    assert_eq!(1, store.segment_len());

    let mut batch = Batch::new();
    batch.put(b"key-d", b"x").unwrap();
    store.commit(batch).unwrap();
    assert_eq!(1, store.wal_records());

    assert_eq!(Some(b"newer".to_vec()), store.get(b"key-a").unwrap());
    assert_eq!(None, store.get(b"key-b").unwrap());
    assert_eq!(Some(b"third".to_vec()), store.get(b"key-c").unwrap());
    assert_eq!(Some(b"x".to_vec()), store.get(b"key-d").unwrap());
    assert_eq!(None, store.get(b"key-e").unwrap());
}

#[test]
fn reopen_recovers_unflushed_writes() {
    let mut store = default_store();
    let mut batch = Batch::new();
    batch.put(b"k1", b"v1").unwrap();
    batch.put(b"k2", b"v2").unwrap();
    store.commit(batch).unwrap();
    let mut batch = Batch::new();
    batch.delete(b"k2").unwrap();
    store.commit(batch).unwrap();
    assert_eq!(0, store.segment_len());
    assert_eq!(3, store.wal_records());

    let reopened = store.reopen().unwrap();
    assert_eq!(Some(b"v1".to_vec()), reopened.get(b"k1").unwrap());
    assert_eq!(None, reopened.get(b"k2").unwrap());
    assert_eq!(store.next_sequence(), reopened.next_sequence());
}

#[test]
fn reopen_after_flush_uses_segments_and_log() {
    let mut store = Store::new(small_config(4, 10));
    let mut batch = Batch::new();
    batch.put(b"flushed", b"value").unwrap();
    store.commit(batch).unwrap();
    let mut batch = Batch::new();
    batch.put(b"k", b"v").unwrap();
    store.commit(batch).unwrap();
    assert_eq!(1, store.segment_len());
    assert_eq!(1, store.wal_records());

    let mut reopened = store.reopen().unwrap();
    assert_eq!(Some(b"value".to_vec()), reopened.get(b"flushed").unwrap());
    assert_eq!(Some(b"v".to_vec()), reopened.get(b"k").unwrap());
    assert_eq!(store.next_sequence(), reopened.next_sequence());
    let mut batch = Batch::new();
    batch.delete(b"flushed").unwrap();
    reopened.commit(batch).unwrap();
    assert_eq!(None, reopened.get(b"flushed").unwrap());
}

#[test]
fn commit_fails_when_sequence_numbers_run_out() {
    let records = vec![WalRecord { seq: u64::MAX - 1, op: Op::Put { key: b"a".to_vec(), value: b"b".to_vec() } }];
    let mut store = Store::recover(small_config(1 << 20, 4), Vec::new(), records).unwrap();
    assert_eq!(u64::MAX, store.next_sequence());
    let mut batch = Batch::new();
    batch.put(b"c", b"d").unwrap();
    assert_eq!(Err(Error::OrderingViolation), store.commit(batch));
    assert_eq!(None, store.get(b"c").unwrap());
    assert_eq!(Ok(()), store.commit(Batch::new()));
    assert_eq!(Some(b"b".to_vec()), store.get(b"a").unwrap());
}

#[test]
fn recover_rejects_corrupt_log() {
    let records = vec![
        WalRecord { seq: 5, op: Op::Put { key: b"a".to_vec(), value: b"1".to_vec() } },
        WalRecord { seq: 5, op: Op::Delete { key: b"a".to_vec() } },
    ];
    assert!(matches!(Store::recover(small_config(16, 2), Vec::new(), records), Err(Error::OpenError)));
    let records = vec![WalRecord { seq: u64::MAX, op: Op::Delete { key: b"a".to_vec() } }];
    assert!(matches!(Store::recover(small_config(16, 2), Vec::new(), records), Err(Error::OpenError)));
}

#[test]
fn recover_replays_log_over_segments() {
    let mut mem = MemTable::new();
    mem.put(b"a", b"old", 1).unwrap();
    mem.put(b"b", b"kept", 2).unwrap();
    mem.freeze();
    let seg = Segment::build(mem.into_run(), 7);
    let records = vec![
        WalRecord { seq: 3, op: Op::Put { key: b"a".to_vec(), value: b"new".to_vec() } },
        WalRecord { seq: 4, op: Op::Put { key: b"c".to_vec(), value: b"fresh".to_vec() } },
    ];
    let store = Store::recover(small_config(1 << 20, 4), vec![seg], records).unwrap();
    assert_eq!(Some(b"new".to_vec()), store.get(b"a").unwrap());
    assert_eq!(Some(b"kept".to_vec()), store.get(b"b").unwrap());
    assert_eq!(Some(b"fresh".to_vec()), store.get(b"c").unwrap());
    assert_eq!(5, store.next_sequence());
    assert_eq!(1, store.segment_len());
}
