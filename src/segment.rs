//! Immutable sorted segments: a run of entries built once, then only read,
//! tagged with a generation number (higher is newer).
use vstd::prelude::*;
use crate::key::{key_lt, lemma_key_order, compare_keys};
use crate::codec::{decode_log, encode_log, log_bytes, parse_log, parsed_len};
use crate::error::Error;
use crate::key::copy_bytes;
use crate::wal::{Op, WalRecord, records_view};
use crate::run::{duplicate_entries, Entry, EntryV, entries_view, lookup, sorted, search, lemma_lookup_absent};

verus! {

pub struct Segment {
    entries: Vec<Entry>,
    generation: u64,
}

impl Segment {
    /// The entries, in key order.
    pub closed spec fn entries(&self) -> Seq<EntryV> {
        entries_view(self.entries@)
    }

    pub closed spec fn spec_generation(&self) -> u64 {
        self.generation
    }

    pub open spec fn wf(&self) -> bool {
        sorted(self.entries())
    }

    /// Builds a segment from a sorted run.
    pub fn build(entries: Vec<Entry>, generation: u64) -> (r: Segment)
        requires
            sorted(entries_view(entries@)),
        ensures
            r.wf(),
            r.entries() == entries_view(entries@),
            r.spec_generation() == generation,
    {
        Segment { entries, generation }
    }

    /// The segment's bytes: its entries, in key order, in the log's record
    /// format.
    pub fn encode(&self) -> (r: Vec<u8>)
        ensures
            r@ == log_bytes(self.entries()),
    {
        let mut recs: Vec<WalRecord> = Vec::new();
        let mut i: usize = 0;
        while i < self.entries.len()
            invariant
                i <= self.entries@.len(),
                recs@.len() == i,
                forall|j: int| 0 <= j < i ==> (#[trigger] recs@[j])@ == self.entries@[j]@,
            decreases self.entries@.len() - i,
        {
            let e = &self.entries[i];
            let op = match &e.value {
                Some(v) => Op::Put { key: copy_bytes(e.key.as_slice()), value: copy_bytes(v.as_slice()) },
                None => Op::Delete { key: copy_bytes(e.key.as_slice()) },
            };
            recs.push(WalRecord { seq: e.seq, op });
            i = i + 1;
        }
        assert(records_view(recs@) =~= self.entries());
        encode_log(&recs)
    }

    /// Reads a segment back from its bytes: fails with `CorruptSegment` when
    /// some bytes do not parse as whole records with matching checksums, or
    /// when keys do not strictly increase.
    pub fn decode(bytes: &[u8], generation: u64) -> (r: Result<Segment, Error>)
        ensures
            r is Ok <==> parsed_len(bytes@) == bytes@.len() && sorted(parse_log(bytes@)),
            match r {
                Ok(s) => s.wf() && s.entries() == parse_log(bytes@) && s.spec_generation() == generation,
                Err(e) => e == Error::CorruptSegment,
            },
    {
        let (recs, end) = decode_log(bytes);
        if end != bytes.len() {
            return Err(Error::CorruptSegment);
        }
        let ghost p = parse_log(bytes@);
        let mut entries: Vec<Entry> = Vec::new();
        let mut i: usize = 0;
        while i < recs.len()
            invariant
                p == records_view(recs@),
                p == parse_log(bytes@),
                parsed_len(bytes@) == bytes@.len(),
                i <= recs@.len(),
                entries@.len() == i,
                forall|j: int| 0 <= j < i ==> (#[trigger] entries@[j])@ == p[j],
                sorted(entries_view(entries@)),
            decreases recs@.len() - i,
        {
            proof { lemma_key_order(); }
            let e = recs[i].to_entry();
            assert(e@ == p[i as int]);
            if i > 0 {
                let c = compare_keys(entries[i - 1].key.as_slice(), e.key.as_slice());
                if !matches!(c, core::cmp::Ordering::Less) {
                    proof {
                        assert(entries@[i - 1]@ == p[i - 1]);
                        assert(!key_lt(p[i - 1].key, p[i as int].key));
                    }
                    return Err(Error::CorruptSegment);
                }
                proof {
                    assert(entries@[i - 1]@ == p[i - 1]);
                    assert(key_lt(p[i - 1].key, p[i as int].key));
                }
            }
            let ghost before = entries_view(entries@);
            entries.push(e);
            proof {
                let now = entries_view(entries@);
                assert forall|a: int, b: int| 0 <= a < b < now.len() implies key_lt(#[trigger] now[a].key, #[trigger] now[b].key) by {
                    if b == i {
                        assert(now[b] == p[i as int]);
                        assert(now[i - 1] == p[i - 1]);
                        assert(key_lt(now[i - 1].key, now[b].key));
                        if a < i - 1 {
                            assert(now[a] == before[a] && now[i - 1] == before[i - 1]);
                        }
                    } else {
                        assert(now[a] == before[a] && now[b] == before[b]);
                    }
                }
            }
            i = i + 1;
        }
        assert(entries_view(entries@) =~= p);
        Ok(Segment { entries, generation })
    }

    /// A deep copy of the segment.
    pub fn duplicate(&self) -> (r: Segment)
        requires
            self.wf(),
        ensures
            r.wf(),
            r.entries() == self.entries(),
            r.spec_generation() == self.spec_generation(),
    {
        Segment { entries: duplicate_entries(&self.entries), generation: self.generation }
    }

    /// The entry for `key`, value or tombstone, if the segment holds one.
    pub fn lookup(&self, key: &[u8]) -> (r: Option<&Entry>)
        requires
            self.wf(),
        ensures
            match r {
                Some(e) => lookup(self.entries(), key@) == Some(e@),
                None => lookup(self.entries(), key@) is None,
            },
    {
        match search(&self.entries, key) {
            Ok(i) => Some(&self.entries[i]),
            Err(_) => None,
        }
    }

    /// The smallest and the largest key, or `None` for an empty segment.
    pub fn key_range(&self) -> (r: Option<(&[u8], &[u8])>)
        ensures
            r is None <==> self.entries().len() == 0,
            match r {
                Some((lo, hi)) => lo@ == self.entries()[0].key && hi@ == self.entries().last().key,
                None => true,
            },
    {
        let n = self.entries.len();
        if n == 0 {
            None
        } else {
            assert(self.entries()[0] == self.entries@[0]@);
            assert(self.entries()[n - 1] == self.entries@[n - 1]@);
            Some((self.entries[0].key.as_slice(), self.entries[n - 1].key.as_slice()))
        }
    }

    /// Whether `key` lies within the segment's key range; a key outside it
    /// cannot be in the segment.
    pub fn may_contain(&self, key: &[u8]) -> (r: bool)
        requires
            self.wf(),
        ensures
            !r ==> lookup(self.entries(), key@) is None,
            r <==> self.entries().len() > 0 && !key_lt(key@, self.entries()[0].key)
                && !key_lt(self.entries().last().key, key@),
    {
        let s = Ghost(self.entries());
        match self.key_range() {
            None => {
                proof { lemma_lookup_absent(s@, key@); }
                false
            },
            Some((lo, hi)) => {
                let below = matches!(compare_keys(key, lo), core::cmp::Ordering::Less);
                let above = matches!(compare_keys(hi, key), core::cmp::Ordering::Less);
                proof {
                    lemma_key_order();
                    if below || above {
                        assert forall|i: int| 0 <= i < s@.len() implies #[trigger] s@[i].key != key@ by {
                            if s@[i].key == key@ {
                                if below && i > 0 {
                                    assert(key_lt(s@[0].key, s@[i].key));
                                }
                                if above && i < s@.len() - 1 {
                                    assert(key_lt(s@[i].key, s@[s@.len() - 1].key));
                                }
                            }
                        }
                        lemma_lookup_absent(s@, key@);
                    }
                }
                !below && !above
            },
        }
    }

    pub fn generation(&self) -> (r: u64)
        ensures
            r == self.spec_generation(),
    {
        self.generation
    }

    pub fn len(&self) -> (r: usize)
        ensures
            r == self.entries().len(),
    {
        self.entries.len()
    }

    /// The entries in key order.
    pub fn iterate(&self) -> (r: &Vec<Entry>)
        ensures
            entries_view(r@) == self.entries(),
    {
        &self.entries
    }
}

} // verus!
