//! The write-ahead log: mutations in commit order, each with a sequence
//! number; sequence numbers strictly increase along the log.
use vstd::prelude::*;
use crate::error::Error;
use crate::key::copy_bytes;
use crate::run::{Entry, EntryV};

verus! {

/// One mutation.
pub enum Op {
    Put { key: Vec<u8>, value: Vec<u8> },
    Delete { key: Vec<u8> },
}

impl Op {
    pub open spec fn key_view(&self) -> Seq<u8> {
        match self {
            Op::Put { key, .. } => key@,
            Op::Delete { key } => key@,
        }
    }

    /// The value written, or `None` for a deletion.
    pub open spec fn value_view(&self) -> Option<Seq<u8>> {
        match self {
            Op::Put { value, .. } => Some(value@),
            Op::Delete { .. } => None,
        }
    }
}

impl Op {
    /// A deep copy of the mutation.
    pub fn duplicate(&self) -> (r: Op)
        ensures
            r.key_view() == self.key_view(),
            r.value_view() == self.value_view(),
    {
        match self {
            Op::Put { key, value } => Op::Put { key: copy_bytes(key.as_slice()), value: copy_bytes(value.as_slice()) },
            Op::Delete { key } => Op::Delete { key: copy_bytes(key.as_slice()) },
        }
    }
}

/// A logged mutation with its sequence number.
pub struct WalRecord {
    pub seq: u64,
    pub op: Op,
}

impl View for WalRecord {
    type V = EntryV;

    open spec fn view(&self) -> EntryV {
        EntryV { key: self.op.key_view(), value: self.op.value_view(), seq: self.seq }
    }
}

impl WalRecord {
    /// The record as a memory-table entry.
    pub fn to_entry(&self) -> (r: Entry)
        ensures
            r@ == self@,
    {
        match &self.op {
            Op::Put { key, value } => Entry { key: copy_bytes(key.as_slice()), value: Some(copy_bytes(value.as_slice())), seq: self.seq },
            Op::Delete { key } => Entry { key: copy_bytes(key.as_slice()), value: None, seq: self.seq },
        }
    }

    pub fn duplicate(&self) -> (r: WalRecord)
        ensures
            r@ == self@,
    {
        WalRecord { seq: self.seq, op: self.op.duplicate() }
    }
}

pub open spec fn records_view(s: Seq<WalRecord>) -> Seq<EntryV> {
    s.map_values(|r: WalRecord| r@)
}

/// Sequence numbers strictly increase along `s`.
pub open spec fn increasing(s: Seq<EntryV>) -> bool {
    forall|i: int, j: int| 0 <= i < j < s.len() ==> #[trigger] s[i].seq < #[trigger] s[j].seq
}

pub struct Wal {
    records: Vec<WalRecord>,
}

impl Wal {
    /// The records, in the order they were appended.
    pub closed spec fn records(&self) -> Seq<EntryV> {
        records_view(self.records@)
    }

    pub open spec fn wf(&self) -> bool {
        increasing(self.records())
    }

    /// An empty log.
    pub fn new() -> (r: Wal)
        ensures
            r.wf(),
            r.records() == Seq::<EntryV>::empty(),
    {
        let r = Wal { records: Vec::new() };
        assert(r.records() =~= Seq::<EntryV>::empty());
        r
    }

    /// A log holding `records`, as read back at startup; fails with
    /// `OrderingViolation` unless their sequence numbers strictly increase.
    pub fn from_records(records: Vec<WalRecord>) -> (r: Result<Wal, Error>)
        ensures
            r is Ok <==> increasing(records_view(records@)),
            match r {
                Ok(w) => w.wf() && w.records() == records_view(records@),
                Err(e) => e == Error::OrderingViolation,
            },
    {
        let mut w = Wal::new();
        match w.append(records) {
            Ok(()) => {
                assert(Seq::<EntryV>::empty() + records_view(records@) =~= records_view(records@));
                Ok(w)
            },
            Err(e) => {
                assert(Seq::<EntryV>::empty() + records_view(records@) =~= records_view(records@));
                Err(e)
            },
        }
    }

    /// The sequence number of the last record, if any.
    pub fn last_seq(&self) -> (r: Option<u64>)
        ensures
            r is None <==> self.records().len() == 0,
            r is Some ==> r->0 == self.records().last().seq,
    {
        let n = self.records.len();
        if n == 0 {
            None
        } else {
            assert(self.records()[n - 1] == self.records@[n - 1]@);
            Some(self.records[n - 1].seq)
        }
    }

    /// Appends a batch of records, all or nothing: fails with
    /// `OrderingViolation`, leaving the log as it was, unless sequence numbers
    /// keep strictly increasing.
    pub fn append(&mut self, batch: Vec<WalRecord>) -> (r: Result<(), Error>)
        requires
            old(self).wf(),
        ensures
            final(self).wf(),
            r is Ok <==> increasing(old(self).records() + records_view(batch@)),
            r is Ok ==> final(self).records() == old(self).records() + records_view(batch@),
            r is Err ==> r == Err::<(), Error>(Error::OrderingViolation) && *final(self) == *old(self),
    {
        let ghost o = self.records();
        let ghost b = records_view(batch@);
        let mut prev = self.last_seq();
        let mut i: usize = 0;
        assert(o + b.subrange(0, 0) =~= o);
        while i < batch.len()
            invariant
                o == self.records(),
                b == records_view(batch@),
                increasing(o),
                i <= batch@.len(),
                increasing(o + b.subrange(0, i as int)),
                prev is None <==> (o + b.subrange(0, i as int)).len() == 0,
                prev is Some ==> prev->0 == (o + b.subrange(0, i as int)).last().seq,
            decreases batch@.len() - i,
        {
            let s = batch[i].seq;
            assert(b[i as int].seq == s);
            let ghost c = o + b.subrange(0, i as int);
            assert(c.push(b[i as int]) =~= o + b.subrange(0, i + 1));
            match prev {
                Some(p) => {
                    if s <= p {
                        proof {
                            let full = o + b;
                            assert(full[c.len() - 1] == c.last());
                            assert(full[c.len() as int] == b[i as int]);
                        }
                        return Err(Error::OrderingViolation);
                    }
                    proof {
                        let d = c.push(b[i as int]);
                        assert forall|x: int, y: int| 0 <= x < y < d.len() implies #[trigger] d[x].seq < #[trigger] d[y].seq by {
                            if y == c.len() && x < c.len() - 1 {
                                assert(c[x].seq < c[c.len() - 1].seq);
                            }
                        }
                    }
                },
                None => {},
            }
            prev = Some(s);
            i = i + 1;
        }
        assert(b.subrange(0, batch@.len() as int) =~= b);
        let mut batch = batch;
        self.records.append(&mut batch);
        proof {
            assert(self.records() =~= o + b);
        }
        Ok(())
    }

    /// A copy of the records in the order they were appended.
    pub fn replay_owned(&self) -> (r: Vec<WalRecord>)
        ensures
            records_view(r@) == self.records(),
    {
        let mut out: Vec<WalRecord> = Vec::new();
        let mut i: usize = 0;
        while i < self.records.len()
            invariant
                i <= self.records@.len(),
                out@.len() == i,
                forall|j: int| 0 <= j < i ==> (#[trigger] out@[j])@ == self.records@[j]@,
            decreases self.records@.len() - i,
        {
            out.push(self.records[i].duplicate());
            i = i + 1;
        }
        assert(records_view(out@) =~= self.records());
        out
    }

    /// The records in the order they were appended.
    pub fn replay(&self) -> (r: &Vec<WalRecord>)
        ensures
            records_view(r@) == self.records(),
    {
        &self.records
    }

    /// Discards the prefix of records whose sequence numbers are below
    /// `before`.
    pub fn truncate(&mut self, before: u64)
        requires
            old(self).wf(),
        ensures
            final(self).wf(),
            final(self).records().len() <= old(self).records().len(),
            final(self).records() == old(self).records().subrange(
                old(self).records().len() - final(self).records().len(),
                old(self).records().len() as int,
            ),
            forall|i: int| 0 <= i < old(self).records().len() - final(self).records().len()
                ==> (#[trigger] old(self).records()[i]).seq < before,
            forall|i: int| 0 <= i < final(self).records().len()
                ==> (#[trigger] final(self).records()[i]).seq >= before,
    {
        let ghost o = self.records();
        let mut c: usize = 0;
        while c < self.records.len() && self.records[c].seq < before
            invariant
                o == self.records(),
                c <= o.len(),
                forall|i: int| 0 <= i < c ==> (#[trigger] o[i]).seq < before,
            decreases o.len() - c,
        {
            assert(o[c as int] == self.records@[c as int]@);
            c = c + 1;
        }
        proof {
            if c < o.len() {
                assert(o[c as int] == self.records@[c as int]@);
            }
        }
        let rest = self.records.split_off(c);
        self.records = rest;
        proof {
            let f = self.records();
            assert(f =~= o.subrange(c as int, o.len() as int));
            assert forall|i: int| 0 <= i < f.len() implies (#[trigger] f[i]).seq >= before by {
                if c < o.len() && i > 0 {
                    assert(o[c as int].seq < o[c + i].seq);
                }
                assert(f[i] == o[c + i]);
            }
        }
    }
}

} // verus!
