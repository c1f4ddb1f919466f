//! The log's byte format. A record is its sequence number (8 bytes,
//! little-endian), a tag (1 for a write, 0 for a deletion), the key's length
//! (8 bytes) and the key, for a write the value's length (8 bytes) and the
//! value, then a checksum of all the record's preceding bytes (8 bytes).
//! Decoding stops at the first record that is cut short or fails its
//! checksum: a record torn by a crash is dropped, never half applied.
use vstd::prelude::*;
use crate::run::EntryV;
use crate::wal::{Op, WalRecord, records_view};

verus! {

/// The eight little-endian bytes of `x`.
pub open spec fn u64_bytes(x: u64) -> Seq<u8> {
    seq![
        (x & 0xff) as u8,
        ((x >> 8u64) & 0xff) as u8,
        ((x >> 16u64) & 0xff) as u8,
        ((x >> 24u64) & 0xff) as u8,
        ((x >> 32u64) & 0xff) as u8,
        ((x >> 40u64) & 0xff) as u8,
        ((x >> 48u64) & 0xff) as u8,
        ((x >> 56u64) & 0xff) as u8,
    ]
}

/// The little-endian number in `b[i..i + 8]`.
#[verifier::opaque]
pub open spec fn read_u64(b: Seq<u8>, i: int) -> u64 {
    (b[i] as u64) | ((b[i + 1] as u64) << 8u64) | ((b[i + 2] as u64) << 16u64) | ((b[i + 3] as u64) << 24u64)
        | ((b[i + 4] as u64) << 32u64) | ((b[i + 5] as u64) << 40u64) | ((b[i + 6] as u64) << 48u64)
        | ((b[i + 7] as u64) << 56u64)
}

pub open spec fn wrapping_add_byte(a: u64, x: u8) -> u64 {
    if a + x <= u64::MAX { (a + x) as u64 } else { (a + x - 0x1_0000_0000_0000_0000) as u64 }
}

/// The sum of the bytes, wrapping at 2^64.
pub open spec fn checksum(b: Seq<u8>) -> u64
    decreases b.len(),
{
    if b.len() == 0 { 0 } else { wrapping_add_byte(checksum(b.drop_last()), b.last()) }
}

/// A record's bytes before its checksum.
pub open spec fn record_body(e: EntryV) -> Seq<u8> {
    u64_bytes(e.seq) + match e.value {
        Some(v) => seq![1u8] + u64_bytes(e.key.len() as u64) + e.key + u64_bytes(v.len() as u64) + v,
        None => seq![0u8] + u64_bytes(e.key.len() as u64) + e.key,
    }
}

/// A record's bytes.
pub open spec fn record_bytes(e: EntryV) -> Seq<u8> {
    record_body(e) + u64_bytes(checksum(record_body(e)))
}

/// The bytes of a sequence of records.
pub open spec fn log_bytes(rs: Seq<EntryV>) -> Seq<u8>
    decreases rs.len(),
{
    if rs.len() == 0 { Seq::empty() } else { record_bytes(rs[0]) + log_bytes(rs.drop_first()) }
}

/// The record at the start of `s` and its length in bytes, if it is whole
/// and its checksum matches.
#[verifier::opaque]
pub open spec fn parse_record(s: Seq<u8>) -> Option<(EntryV, int)> {
    if s.len() < 17 {
        None
    } else {
        let seq = read_u64(s, 0);
        let tag = s[8];
        let klen = read_u64(s, 9) as int;
        if tag > 1 || klen > s.len() - 17 {
            None
        } else {
            let ke = 17 + klen;
            if tag == 1 {
                if ke + 8 > s.len() {
                    None
                } else {
                    let vlen = read_u64(s, ke) as int;
                    let vs = ke + 8;
                    if vlen > s.len() - vs {
                        None
                    } else {
                        let ve = vs + vlen;
                        if ve + 8 > s.len() || read_u64(s, ve) != checksum(s.subrange(0, ve)) {
                            None
                        } else {
                            Some((EntryV { key: s.subrange(17, ke), value: Some(s.subrange(vs, ve)), seq }, ve + 8))
                        }
                    }
                }
            } else {
                if ke + 8 > s.len() || read_u64(s, ke) != checksum(s.subrange(0, ke)) {
                    None
                } else {
                    Some((EntryV { key: s.subrange(17, ke), value: None, seq }, ke + 8))
                }
            }
        }
    }
}

/// The records at the start of `s`, up to the first that does not parse.
pub open spec fn parse_log(s: Seq<u8>) -> Seq<EntryV>
    decreases s.len(),
{
    match parse_record(s) {
        Some((e, n)) => if 0 < n <= s.len() { seq![e] + parse_log(s.subrange(n, s.len() as int)) } else { seq![e] },
        None => Seq::empty(),
    }
}

/// How many bytes at the start of `s` parse as records.
pub open spec fn parsed_len(s: Seq<u8>) -> int
    decreases s.len(),
{
    match parse_record(s) {
        Some((e, n)) => if 0 < n <= s.len() { n + parsed_len(s.subrange(n, s.len() as int)) } else { n },
        None => 0,
    }
}

pub proof fn lemma_u64_bytes_round_trip(x: u64)
    ensures
        read_u64(u64_bytes(x), 0) == x,
{
    reveal(read_u64);
    let b = u64_bytes(x);
    let b0 = (x & 0xff) as u8;
    let b1 = ((x >> 8u64) & 0xff) as u8;
    let b2 = ((x >> 16u64) & 0xff) as u8;
    let b3 = ((x >> 24u64) & 0xff) as u8;
    let b4 = ((x >> 32u64) & 0xff) as u8;
    let b5 = ((x >> 40u64) & 0xff) as u8;
    let b6 = ((x >> 48u64) & 0xff) as u8;
    let b7 = ((x >> 56u64) & 0xff) as u8;
    assert(b[0] == b0 && b[1] == b1 && b[2] == b2 && b[3] == b3 && b[4] == b4 && b[5] == b5 && b[6] == b6 && b[7] == b7);
    assert((b0 as u64) | ((b1 as u64) << 8u64) | ((b2 as u64) << 16u64) | ((b3 as u64) << 24u64)
        | ((b4 as u64) << 32u64) | ((b5 as u64) << 40u64) | ((b6 as u64) << 48u64)
        | ((b7 as u64) << 56u64) == x) by (bit_vector)
        requires
            b0 == (x & 0xff) as u8,
            b1 == ((x >> 8u64) & 0xff) as u8,
            b2 == ((x >> 16u64) & 0xff) as u8,
            b3 == ((x >> 24u64) & 0xff) as u8,
            b4 == ((x >> 32u64) & 0xff) as u8,
            b5 == ((x >> 40u64) & 0xff) as u8,
            b6 == ((x >> 48u64) & 0xff) as u8,
            b7 == ((x >> 56u64) & 0xff) as u8,
    ;
}

/// Reading eight bytes that equal those of `x` gives `x`.
pub proof fn lemma_read_u64_at(s: Seq<u8>, i: int, x: u64)
    requires
        0 <= i,
        i + 8 <= s.len(),
        s.subrange(i, i + 8) == u64_bytes(x),
    ensures
        read_u64(s, i) == x,
{
    reveal(read_u64);
    let b = u64_bytes(x);
    lemma_u64_bytes_round_trip(x);
    assert(s[i] == b[0]);
    assert(s[i + 1] == b[1]);
    assert(s[i + 2] == b[2]);
    assert(s[i + 3] == b[3]);
    assert(s[i + 4] == b[4]);
    assert(s[i + 5] == b[5]);
    assert(s[i + 6] == b[6]);
    assert(s[i + 7] == b[7]);
}

/// The lengths of an entry fit the format's 8-byte length fields.
pub open spec fn encodable(e: EntryV) -> bool {
    &&& e.key.len() <= u64::MAX
    &&& match e.value {
        Some(v) => v.len() <= u64::MAX,
        None => true,
    }
}

/// A record's bytes, whatever follows them, parse back to the record.
pub proof fn lemma_record_round_trip(e: EntryV, rest: Seq<u8>)
    requires
        encodable(e),
    ensures
        parse_record(record_bytes(e) + rest) == Some((e, record_bytes(e).len() as int)),
{
    reveal(parse_record);
    let body = record_body(e);
    let s = record_bytes(e) + rest;
    let klen = e.key.len() as int;
    let ke = 17 + klen;
    assert(s.subrange(0, 8) =~= u64_bytes(e.seq));
    lemma_read_u64_at(s, 0, e.seq);
    assert(s.subrange(9, 17) =~= u64_bytes(e.key.len() as u64));
    lemma_read_u64_at(s, 9, e.key.len() as u64);
    assert(s.subrange(17, ke) =~= e.key);
    match e.value {
        Some(v) => {
            let vs = ke + 8;
            let ve = vs + v.len();
            assert(s[8] == 1u8);
            assert(s.subrange(ke, vs) =~= u64_bytes(v.len() as u64));
            lemma_read_u64_at(s, ke, v.len() as u64);
            assert(s.subrange(vs, ve) =~= v);
            assert(body.len() == ve);
            assert(s.subrange(0, ve) =~= body);
            assert(s.subrange(ve, ve + 8) =~= u64_bytes(checksum(body)));
            lemma_read_u64_at(s, ve, checksum(body));
        },
        None => {
            assert(s[8] == 0u8);
            assert(body.len() == ke);
            assert(s.subrange(0, ke) =~= body);
            assert(s.subrange(ke, ke + 8) =~= u64_bytes(checksum(body)));
            lemma_read_u64_at(s, ke, checksum(body));
        },
    }
}

/// Decoding the bytes of records, followed by any bytes, gives the records
/// back, then what those bytes decode to.
pub proof fn lemma_log_round_trip(rs: Seq<EntryV>, tail: Seq<u8>)
    requires
        forall|i: int| 0 <= i < rs.len() ==> encodable(#[trigger] rs[i]),
    ensures
        parse_log(log_bytes(rs) + tail) == rs + parse_log(tail),
    decreases rs.len(),
{
    if rs.len() == 0 {
        assert(log_bytes(rs) + tail =~= tail);
        assert(rs + parse_log(tail) =~= parse_log(tail));
    } else {
        let r0 = rs[0];
        let more = rs.drop_first();
        let s = log_bytes(rs) + tail;
        assert(s =~= record_bytes(r0) + (log_bytes(more) + tail));
        lemma_record_round_trip(r0, log_bytes(more) + tail);
        let n = record_bytes(r0).len() as int;
        assert(s.subrange(n, s.len() as int) =~= log_bytes(more) + tail);
        assert forall|i: int| 0 <= i < more.len() implies encodable(#[trigger] more[i]) by {
            assert(more[i] == rs[i + 1]);
        }
        lemma_log_round_trip(more, tail);
        assert(seq![r0] + (more + parse_log(tail)) =~= rs + parse_log(tail));
    }
}

/// The bytes of a log with one more record.
pub proof fn lemma_log_bytes_push(rs: Seq<EntryV>, r: EntryV)
    ensures
        log_bytes(rs.push(r)) == log_bytes(rs) + record_bytes(r),
    decreases rs.len(),
{
    if rs.len() == 0 {
        assert(rs.push(r).drop_first() =~= Seq::<EntryV>::empty());
        assert(rs.push(r)[0] == r);
        assert(log_bytes(rs.push(r)) == record_bytes(r) + log_bytes(Seq::<EntryV>::empty()));
        assert(log_bytes(rs.push(r)) =~= log_bytes(rs) + record_bytes(r));
    } else {
        assert(rs.push(r).drop_first() =~= rs.drop_first().push(r));
        assert(rs.push(r)[0] == rs[0]);
        lemma_log_bytes_push(rs.drop_first(), r);
        let a = record_bytes(rs[0]);
        let m = log_bytes(rs.drop_first());
        let z = record_bytes(r);
        assert(log_bytes(rs.push(r)) == a + log_bytes(rs.drop_first().push(r)));
        assert(log_bytes(rs) == a + m);
        assert(a + (m + z) =~= (a + m) + z);
    }
}

/// A log whose last record was torn by a crash (bytes that do not parse as a
/// record) recovers exactly the records written before it.
pub proof fn lemma_torn_tail_dropped(rs: Seq<EntryV>, torn: Seq<u8>)
    requires
        forall|i: int| 0 <= i < rs.len() ==> encodable(#[trigger] rs[i]),
        parse_record(torn) is None,
    ensures
        parse_log(log_bytes(rs) + torn) == rs,
{
    lemma_log_round_trip(rs, torn);
    assert(rs + Seq::<EntryV>::empty() =~= rs);
}

fn push_u64(out: &mut Vec<u8>, x: u64)
    ensures
        final(out)@ == old(out)@ + u64_bytes(x),
{
    out.push((x & 0xff) as u8);
    out.push(((x >> 8u64) & 0xff) as u8);
    out.push(((x >> 16u64) & 0xff) as u8);
    out.push(((x >> 24u64) & 0xff) as u8);
    out.push(((x >> 32u64) & 0xff) as u8);
    out.push(((x >> 40u64) & 0xff) as u8);
    out.push(((x >> 48u64) & 0xff) as u8);
    out.push(((x >> 56u64) & 0xff) as u8);
    assert(out@ =~= old(out)@ + u64_bytes(x));
}

fn push_bytes(out: &mut Vec<u8>, src: &[u8])
    ensures
        final(out)@ == old(out)@ + src@,
{
    let mut i: usize = 0;
    while i < src.len()
        invariant
            i <= src@.len(),
            out@ == old(out)@ + src@.subrange(0, i as int),
        decreases src@.len() - i,
    {
        out.push(src[i]);
        i = i + 1;
        assert(out@ =~= old(out)@ + src@.subrange(0, i as int));
    }
    assert(src@.subrange(0, src@.len() as int) =~= src@);
}

fn read_u64_at(b: &[u8], i: usize) -> (r: u64)
    requires
        i + 8 <= b@.len(),
    ensures
        r == read_u64(b@, i as int),
{
    reveal(read_u64);
    (b[i] as u64) | ((b[i + 1] as u64) << 8u64) | ((b[i + 2] as u64) << 16u64) | ((b[i + 3] as u64) << 24u64)
        | ((b[i + 4] as u64) << 32u64) | ((b[i + 5] as u64) << 40u64) | ((b[i + 6] as u64) << 48u64)
        | ((b[i + 7] as u64) << 56u64)
}

/// The checksum of `b[start..end]`.
pub fn checksum_of(b: &[u8], start: usize, end: usize) -> (r: u64)
    requires
        start <= end <= b@.len(),
    ensures
        r == checksum(b@.subrange(start as int, end as int)),
{
    let mut acc: u64 = 0;
    let mut i: usize = start;
    assert(b@.subrange(start as int, start as int) =~= Seq::<u8>::empty());
    while i < end
        invariant
            start <= i <= end <= b@.len(),
            acc == checksum(b@.subrange(start as int, i as int)),
        decreases end - i,
    {
        let x = b[i];
        assert(b@.subrange(start as int, i + 1).drop_last() =~= b@.subrange(start as int, i as int));
        acc = if acc <= u64::MAX - x as u64 { acc + x as u64 } else { acc - (u64::MAX - x as u64) - 1 };
        i = i + 1;
    }
    acc
}

/// Appends the bytes of one record.
pub fn encode_record(r: &WalRecord, out: &mut Vec<u8>)
    ensures
        final(out)@ == old(out)@ + record_bytes(r@),
{
    let start = out.len();
    push_u64(out, r.seq);
    match &r.op {
        Op::Put { key, value } => {
            out.push(1u8);
            push_u64(out, key.len() as u64);
            push_bytes(out, key.as_slice());
            push_u64(out, value.len() as u64);
            push_bytes(out, value.as_slice());
        },
        Op::Delete { key } => {
            out.push(0u8);
            push_u64(out, key.len() as u64);
            push_bytes(out, key.as_slice());
        },
    }
    let end = out.len();
    assert(out@.subrange(start as int, end as int) =~= record_body(r@));
    let cs = checksum_of(out.as_slice(), start, end);
    push_u64(out, cs);
    assert(out@ =~= old(out)@ + record_bytes(r@));
}

/// The bytes of a sequence of records.
pub fn encode_log(records: &Vec<WalRecord>) -> (r: Vec<u8>)
    ensures
        r@ == log_bytes(records_view(records@)),
{
    let ghost rv = records_view(records@);
    let mut out: Vec<u8> = Vec::new();
    let mut i: usize = 0;
    assert(rv.subrange(0, 0) =~= Seq::<EntryV>::empty());
    assert(log_bytes(Seq::<EntryV>::empty()) =~= Seq::<u8>::empty());
    while i < records.len()
        invariant
            rv == records_view(records@),
            i <= records@.len(),
            out@ == log_bytes(rv.subrange(0, i as int)),
        decreases records@.len() - i,
    {
        encode_record(&records[i], &mut out);
        proof {
            assert(rv[i as int] == records@[i as int]@);
            assert(rv.subrange(0, i + 1) =~= rv.subrange(0, i as int).push(rv[i as int]));
            lemma_log_bytes_push(rv.subrange(0, i as int), rv[i as int]);
        }
        i = i + 1;
    }
    assert(rv.subrange(0, records@.len() as int) =~= rv);
    out
}

proof fn lemma_read_shift(b: Seq<u8>, off: int, i: int)
    requires
        0 <= off <= b.len(),
        0 <= i,
        off + i + 8 <= b.len(),
    ensures
        read_u64(b.subrange(off, b.len() as int), i) == read_u64(b, off + i),
{
    reveal(read_u64);
    let s = b.subrange(off, b.len() as int);
    assert(s[i] == b[off + i]);
    assert(s[i + 1] == b[off + i + 1]);
    assert(s[i + 2] == b[off + i + 2]);
    assert(s[i + 3] == b[off + i + 3]);
    assert(s[i + 4] == b[off + i + 4]);
    assert(s[i + 5] == b[off + i + 5]);
    assert(s[i + 6] == b[off + i + 6]);
    assert(s[i + 7] == b[off + i + 7]);
}

#[verifier::rlimit(40)]
/// Decodes the record at `b[off..]`: with the offset just past it, or `None`
/// when it is cut short, malformed, or fails its checksum.
pub fn decode_record(b: &[u8], off: usize) -> (r: Option<(WalRecord, usize)>)
    requires
        off <= b@.len(),
    ensures
        match r {
            Some((rec, next)) => off < next <= b@.len()
                && parse_record(b@.subrange(off as int, b@.len() as int)) == Some((rec@, (next - off) as int)),
            None => parse_record(b@.subrange(off as int, b@.len() as int)) is None,
        },
{
    reveal(parse_record);
    let ghost s = b@.subrange(off as int, b@.len() as int);
    let len = b.len();
    if len - off < 17 {
        return None;
    }
    let seq = read_u64_at(b, off);
    let tag = b[off + 8];
    let klen = read_u64_at(b, off + 9);
    proof {
        lemma_read_shift(b@, off as int, 0);
        lemma_read_shift(b@, off as int, 9);
        assert(s[8] == b@[off + 8]);
    }
    if tag > 1 || klen > (len - off - 17) as u64 {
        return None;
    }
    let ks = off + 17;
    let ke = ks + klen as usize;
    assert(s.subrange(17, ke - off) =~= b@.subrange(ks as int, ke as int));
    if tag == 1 {
        if len - ke < 8 {
            return None;
        }
        let vlen = read_u64_at(b, ke);
        proof { lemma_read_shift(b@, off as int, ke - off); }
        let vs = ke + 8;
        if vlen > (len - vs) as u64 {
            return None;
        }
        let ve = vs + vlen as usize;
        if len - ve < 8 {
            return None;
        }
        let stored = read_u64_at(b, ve);
        let cs = checksum_of(b, off, ve);
        proof {
            lemma_read_shift(b@, off as int, ve - off);
            assert(s.subrange(0, ve - off) =~= b@.subrange(off as int, ve as int));
            assert(s.subrange(vs - off, ve - off) =~= b@.subrange(vs as int, ve as int));
        }
        if stored != cs {
            return None;
        }
        let key = vstd::slice::slice_to_vec(vstd::slice::slice_subrange(b, ks, ke));
        let value = vstd::slice::slice_to_vec(vstd::slice::slice_subrange(b, vs, ve));
        Some((WalRecord { seq, op: Op::Put { key, value } }, ve + 8))
    } else {
        if len - ke < 8 {
            return None;
        }
        let stored = read_u64_at(b, ke);
        let cs = checksum_of(b, off, ke);
        proof {
            lemma_read_shift(b@, off as int, ke - off);
            assert(s.subrange(0, ke - off) =~= b@.subrange(off as int, ke as int));
        }
        if stored != cs {
            return None;
        }
        let key = vstd::slice::slice_to_vec(vstd::slice::slice_subrange(b, ks, ke));
        Some((WalRecord { seq, op: Op::Delete { key } }, ke + 8))
    }
}

/// Decodes a log: the records up to the first one that is cut short or
/// fails its checksum, and the offset where decoding stopped; what follows
/// that offset is dropped.
pub fn decode_log(b: &[u8]) -> (r: (Vec<WalRecord>, usize))
    ensures
        records_view(r.0@) == parse_log(b@),
        r.1 == parsed_len(b@),
{
    let mut out: Vec<WalRecord> = Vec::new();
    let mut off: usize = 0;
    assert(b@.subrange(0, b@.len() as int) =~= b@);
    assert(records_view(out@) =~= Seq::<EntryV>::empty());
    while off < b.len()
        invariant
            off <= b@.len(),
            records_view(out@) + parse_log(b@.subrange(off as int, b@.len() as int)) == parse_log(b@),
            off + parsed_len(b@.subrange(off as int, b@.len() as int)) == parsed_len(b@),
        decreases b@.len() - off,
    {
        let ghost s = b@.subrange(off as int, b@.len() as int);
        let ghost before = records_view(out@);
        match decode_record(b, off) {
            Some((rec, next)) => {
                proof {
                    assert(s.subrange(next - off, s.len() as int) =~= b@.subrange(next as int, b@.len() as int));
                    assert(parse_log(s) == seq![rec@] + parse_log(b@.subrange(next as int, b@.len() as int)));
                    assert(parsed_len(s) == (next - off) + parsed_len(b@.subrange(next as int, b@.len() as int)));
                }
                out.push(rec);
                proof {
                    assert(records_view(out@) =~= before.push(rec@));
                    assert(before.push(rec@) + parse_log(b@.subrange(next as int, b@.len() as int))
                        =~= before + (seq![rec@] + parse_log(b@.subrange(next as int, b@.len() as int))));
                }
                off = next;
            },
            None => {
                proof {
                    assert(parse_log(s) == Seq::<EntryV>::empty());
                    assert(parsed_len(s) == 0);
                    assert(before + Seq::<EntryV>::empty() =~= before);
                }
                return (out, off);
            },
        }
    }
    proof {
        let e = b@.subrange(b@.len() as int, b@.len() as int);
        reveal(parse_record);
        assert(e.len() == 0);
        assert(parse_log(e) == Seq::<EntryV>::empty());
        assert(parsed_len(e) == 0);
        assert(records_view(out@) + Seq::<EntryV>::empty() =~= records_view(out@));
    }
    (out, off)
}

} // verus!
