use kvstore::codec::{checksum_of, decode_log, decode_record, encode_log, encode_record};
use kvstore::memtable::MemTable;
use kvstore::segment::Segment;
use kvstore::wal::{Op, WalRecord};
use kvstore::{Batch, Config, Error, Store, SyncMode};

fn config() -> Config {
    Config { memtable_size_threshold: 1 << 20, compaction_trigger_segment_count: 4, wal_sync_mode: SyncMode::Periodic }
}

#[test]
fn record_bytes_are_exact() {
    let mut out = Vec::new();
    encode_record(&WalRecord { seq: 1, op: Op::Delete { key: b"a".to_vec() } }, &mut out);
    assert_eq!(
        vec![1, 0, 0, 0, 0, 0, 0, 0, 0, 1, 0, 0, 0, 0, 0, 0, 0, 97, 99, 0, 0, 0, 0, 0, 0, 0],
        out
    );
    let mut out = Vec::new();
    encode_record(&WalRecord { seq: 0x0102, op: Op::Put { key: b"k".to_vec(), value: vec![7, 8] } }, &mut out);
    assert_eq!(
        vec![2, 1, 0, 0, 0, 0, 0, 0, 1, 1, 0, 0, 0, 0, 0, 0, 0, 107, 2, 0, 0, 0, 0, 0, 0, 0, 7, 8, 129, 0, 0, 0, 0, 0, 0, 0],
        out
    );
    assert_eq!(6, checksum_of(&[1, 2, 3, 4], 0, 3));
    assert_eq!(7, checksum_of(&[1, 2, 3, 4], 2, 4));
}

#[test]
fn log_round_trip_and_torn_tail() {
    let records = vec![
        WalRecord { seq: 1, op: Op::Put { key: b"k1".to_vec(), value: b"v1".to_vec() } },
        WalRecord { seq: 2, op: Op::Delete { key: b"k2".to_vec() } },
    ];
    let bytes = encode_log(&records);
    let (back, end) = decode_log(&bytes);
    assert_eq!(bytes.len(), end);
    assert_eq!(2, back.len());
    assert_eq!(2, back[1].seq);
    assert!(matches!(&back[0].op, Op::Put { key, value } if key == b"k1" && value == b"v1"));

    let mut extra = Vec::new();
    encode_record(&WalRecord { seq: 3, op: Op::Put { key: b"k3".to_vec(), value: b"v3".to_vec() } }, &mut extra);
    let mut torn = bytes.clone();
    torn.extend_from_slice(&extra[..extra.len() - 3]);
    let (back, end) = decode_log(&torn);
    assert_eq!(2, back.len());
    assert_eq!(bytes.len(), end);

    let mut corrupt = bytes.clone();
    corrupt.extend_from_slice(&extra);
    let last = corrupt.len() - 9;
    corrupt[last] ^= 0xff;
    let (back, _) = decode_log(&corrupt);
    assert_eq!(2, back.len());
    assert!(decode_record(&corrupt, bytes.len()).is_none());
    assert!(decode_record(&[], 0).is_none());
}

#[test]
fn open_from_log_bytes_after_crash() {
    let mut store = Store::new(config());
    let mut batch = Batch::new();
    batch.put(b"k1", b"v1").unwrap();
    batch.put(b"k2", b"v2").unwrap();
    store.commit(batch).unwrap();
    let mut batch = Batch::new();
    batch.delete(b"k1").unwrap();
    store.commit(batch).unwrap();

    let mut bytes = store.wal_bytes();
    bytes.extend_from_slice(&[9, 0, 0, 0, 0, 0, 0, 0, 1, 200]);
    let reopened = Store::open(config(), Vec::new(), &bytes).unwrap();
    assert_eq!(None, reopened.get(b"k1").unwrap());
    assert_eq!(Some(b"v2".to_vec()), reopened.get(b"k2").unwrap());
    assert_eq!(4, reopened.next_sequence());
}

#[test]
fn open_rejects_log_with_repeated_sequence_number() {
    let records = vec![
        WalRecord { seq: 2, op: Op::Delete { key: b"a".to_vec() } },
        WalRecord { seq: 1, op: Op::Delete { key: b"b".to_vec() } },
    ];
    let bytes = encode_log(&records);
    assert!(matches!(Store::open(config(), Vec::new(), &bytes), Err(Error::OpenError)));
}

#[test]
fn segment_bytes_round_trip_and_corruption() {
    let mut mem = MemTable::new();
    mem.put(b"b", b"2", 1).unwrap();
    mem.put(b"a", b"1", 2).unwrap();
    mem.delete(b"c", 3).unwrap();
    let seg = Segment::build(mem.into_run(), 5);
    let bytes = seg.encode();
    let back = Segment::decode(&bytes, 5).unwrap();
    assert_eq!(3, back.len());
    assert_eq!(5, back.generation());
    assert_eq!(Some(b"1".to_vec()), back.lookup(b"a").unwrap().value.clone());
    assert_eq!(None, back.lookup(b"c").unwrap().value.clone());

    let mut trailing = bytes.clone();
    trailing.push(0);
    assert!(matches!(Segment::decode(&trailing, 5), Err(Error::CorruptSegment)));
    let mut flipped = bytes.clone();
    flipped[17] ^= 1;
    assert!(matches!(Segment::decode(&flipped, 5), Err(Error::CorruptSegment)));
    let unsorted = encode_log(&vec![
        WalRecord { seq: 1, op: Op::Delete { key: b"b".to_vec() } },
        WalRecord { seq: 2, op: Op::Delete { key: b"a".to_vec() } },
    ]);
    assert!(matches!(Segment::decode(&unsorted, 1), Err(Error::CorruptSegment)));
    assert_eq!(0, Segment::decode(&[], 1).unwrap().len());
}

#[test]
fn open_with_decoded_segments() {
    let mut store = Store::new(Config { memtable_size_threshold: 4, compaction_trigger_segment_count: 8, wal_sync_mode: SyncMode::Always });
    let mut batch = Batch::new();
    batch.put(b"seg", b"value").unwrap();
    store.commit(batch).unwrap();
    let mut batch = Batch::new();
    batch.put(b"k", b"v").unwrap();
    store.commit(batch).unwrap();
    let segs: Vec<Segment> = store
        .segments()
        .iter()
        .map(|s| Segment::decode(&s.encode(), s.generation()).unwrap())
        .collect();
    let reopened = Store::open(store.config(), segs, &store.wal_bytes()).unwrap();
    assert_eq!(Some(b"value".to_vec()), reopened.get(b"seg").unwrap());
    assert_eq!(Some(b"v".to_vec()), reopened.get(b"k").unwrap());
}
