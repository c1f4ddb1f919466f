use std::cmp::Ordering;
use kvstore::compaction::compact;
use kvstore::key::compare_keys;
use kvstore::memtable::MemTable;
use kvstore::run::Entry;
use kvstore::segment::Segment;
use kvstore::wal::{Op, Wal, WalRecord};
use kvstore::Error;

fn put(key: &[u8], value: &[u8], seq: u64) -> WalRecord {
    WalRecord { seq, op: Op::Put { key: key.to_vec(), value: value.to_vec() } }
}

#[test]
fn keys_order_bytewise_with_prefix_first() {
    assert_eq!(Ordering::Less, compare_keys(b"ab", b"abc"));
    assert_eq!(Ordering::Greater, compare_keys(b"b", b"abc"));
    assert_eq!(Ordering::Equal, compare_keys(b"abc", b"abc"));
    assert_eq!(Ordering::Less, compare_keys(b"", b"\x00"));
    assert_eq!(Ordering::Greater, compare_keys(&[0xff], &[0x7f, 0xff]));
}

#[test]
fn memtable_keeps_keys_sorted_and_latest() {
    let mut mem = MemTable::new();
    mem.put(b"m", b"1", 1).unwrap();
    mem.put(b"a", b"2", 2).unwrap();
    mem.put(b"z", b"3", 3).unwrap();
    mem.put(b"m", b"4", 4).unwrap();
    mem.delete(b"a", 5).unwrap();
    let keys: Vec<Vec<u8>> = mem.iterate().iter().map(|e| e.key.clone()).collect();
    assert_eq!(vec![b"a".to_vec(), b"m".to_vec(), b"z".to_vec()], keys);
    assert_eq!(Some(b"4".to_vec()), mem.get(b"m").unwrap().value.clone());
    assert_eq!(None, mem.get(b"a").unwrap().value.clone());
    assert_eq!(5, mem.get(b"a").unwrap().seq);
    assert!(mem.get(b"q").is_none());
    assert_eq!(3, mem.len());
    assert_eq!(9, mem.size_bytes());
}

#[test]
fn memtable_rejects_sequence_regression() {
    let mut mem = MemTable::new();
    mem.put(b"k", b"v", 10).unwrap();
    assert_eq!(Err(Error::OrderingViolation), mem.put(b"k", b"w", 10));
    assert_eq!(Err(Error::OrderingViolation), mem.delete(b"k", 3));
    assert_eq!(Some(b"v".to_vec()), mem.get(b"k").unwrap().value.clone());
    assert_eq!(Ok(()), mem.put(b"other", b"x", 3));
}

#[test]
fn frozen_memtable_rejects_writes() {
    let mut mem = MemTable::new();
    mem.put(b"k", b"v", 1).unwrap();
    mem.freeze();
    assert!(mem.is_frozen());
    assert_eq!(Err(Error::Frozen), mem.put(b"j", b"v", 2));
    assert_eq!(Err(Error::Frozen), mem.delete(b"k", 2));
    assert_eq!(1, mem.len());
}

fn segment_of(pairs: &[(&[u8; 1], Option<&[u8; 1]>, u64)], generation: u64) -> Segment {
    let mut mem = MemTable::new();
    for (k, v, s) in pairs {
        match v {
            Some(v) => mem.put(&k[..], &v[..], *s).unwrap(),
            None => mem.delete(&k[..], *s).unwrap(),
        }
    }
    Segment::build(mem.into_run(), generation)
}

#[test]
fn segment_lookup_and_key_range() {
    let seg = segment_of(&[(b"d", Some(b"4"), 1), (b"b", Some(b"2"), 2), (b"f", None, 3)], 3);
    assert_eq!(3, seg.generation());
    assert_eq!(3, seg.len());
    assert_eq!(Some((b"b" as &[u8], b"f" as &[u8])), seg.key_range());
    assert_eq!(Some(b"4".to_vec()), seg.lookup(b"d").unwrap().value.clone());
    assert_eq!(None, seg.lookup(b"f").unwrap().value.clone());
    assert!(seg.lookup(b"c").is_none());
    assert!(!seg.may_contain(b"a"));
    assert!(!seg.may_contain(b"g"));
    assert!(seg.may_contain(b"c"));
    let empty = Segment::build(Vec::new(), 1);
    assert_eq!(None, empty.key_range());
    assert!(!empty.may_contain(b""));
}

#[test]
fn compaction_merges_newest_wins_and_drops_tombstones() {
    let older = segment_of(&[(b"a", Some(b"1"), 1), (b"b", Some(b"2"), 2), (b"c", Some(b"3"), 3)], 1);
    let newer = segment_of(&[(b"a", Some(b"9"), 4), (b"b", None, 5), (b"d", None, 6)], 2);
    let merged = compact(&vec![older, newer], 3);
    let got: Vec<(Vec<u8>, Option<Vec<u8>>, u64)> =
        merged.iterate().iter().map(|e: &Entry| (e.key.clone(), e.value.clone(), e.seq)).collect();
    assert_eq!(
        vec![(b"a".to_vec(), Some(b"9".to_vec()), 4), (b"c".to_vec(), Some(b"3".to_vec()), 3)],
        got
    );
    assert_eq!(3, merged.generation());
}

#[test]
fn compaction_twice_is_stable() {
    let older = segment_of(&[(b"x", Some(b"1"), 1), (b"y", Some(b"2"), 2)], 1);
    let newer = segment_of(&[(b"y", None, 3), (b"z", Some(b"3"), 4)], 2);
    let once = compact(&vec![older, newer], 3);
    let twice = compact(&vec![once.duplicate()], 4);
    let a: Vec<(Vec<u8>, Option<Vec<u8>>)> = once.iterate().iter().map(|e| (e.key.clone(), e.value.clone())).collect();
    let b: Vec<(Vec<u8>, Option<Vec<u8>>)> = twice.iterate().iter().map(|e| (e.key.clone(), e.value.clone())).collect();
    assert_eq!(a, b);
    assert_eq!(vec![(b"x".to_vec(), Some(b"1".to_vec())), (b"z".to_vec(), Some(b"3".to_vec()))], a);
}

#[test]
fn wal_append_replay_truncate() {
    let mut wal = Wal::new();
    assert_eq!(None, wal.last_seq());
    wal.append(vec![put(b"a", b"1", 1), put(b"b", b"2", 2)]).unwrap();
    assert_eq!(Err(Error::OrderingViolation), wal.append(vec![put(b"c", b"3", 5), put(b"d", b"4", 4)]));
    assert_eq!(Err(Error::OrderingViolation), wal.append(vec![put(b"c", b"3", 2)]));
    assert_eq!(2, wal.replay().len());
    wal.append(vec![put(b"c", b"3", 3)]).unwrap();
    let seqs: Vec<u64> = wal.replay().iter().map(|r| r.seq).collect();
    assert_eq!(vec![1, 2, 3], seqs);
    assert_eq!(Some(3), wal.last_seq());
    wal.truncate(3);
    let seqs: Vec<u64> = wal.replay().iter().map(|r| r.seq).collect();
    assert_eq!(vec![3], seqs);
    wal.truncate(100);
    assert_eq!(0, wal.replay().len());
    assert!(matches!(Wal::from_records(vec![put(b"a", b"1", 2), put(b"b", b"1", 1)]), Err(Error::OrderingViolation)));
    assert_eq!(2, Wal::from_records(vec![put(b"a", b"1", 1), put(b"b", b"1", 2)]).unwrap().replay_owned().len());
}
