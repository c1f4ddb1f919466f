//! The store: routes writes through the log into the memory table, flushes a
//! full memory table into a new segment, compacts segments when there are
//! enough of them, and answers reads from the memory table first, then from
//! segments newest to oldest.
use vstd::prelude::*;
use crate::compaction::{compact, layers, segments_wf, lemma_layers_at};
use crate::error::Error;
use crate::key::copy_bytes;
use crate::memtable::MemTable;
use crate::run::{entries_view, EntryV, bytes_view, lookup, visible, seqs_below, lemma_lookup_concat,
    lemma_lookup_push, lemma_lookup_seqs_below, lemma_lookup_sorted};
use crate::segment::Segment;
use crate::state::{Mutation, apply_mutations, view_of, map_get, same_lookups,
    lemma_map_get_view, lemma_view_push, lemma_same_lookups_under};
use crate::wal::{Op, Wal, WalRecord, records_view, increasing};
use crate::codec::{decode_log, encode_log, encodable, log_bytes, parse_log, parse_record, lemma_torn_tail_dropped};

verus! {

/// When the log is forced to stable storage.
#[derive(Debug, Clone, Copy, PartialEq, Eq, Structural)]
pub enum SyncMode {
    Always,
    Periodic,
}

/// Tuning of a store.
#[derive(Debug, Clone, Copy, PartialEq, Eq, Structural)]
pub struct Config {
    /// A memory table holding more bytes than this is flushed.
    pub memtable_size_threshold: usize,
    /// Segments are compacted once there are this many (never when zero).
    pub compaction_trigger_segment_count: usize,
    pub wal_sync_mode: SyncMode,
}

/// The log entry of the `j`-th mutation of a batch whose first mutation gets
/// sequence number `base`.
pub open spec fn logged(ops: Seq<Mutation>, base: u64, j: int) -> EntryV {
    EntryV { key: ops[j].key, value: ops[j].value, seq: (base + j) as u64 }
}

pub open spec fn op_mutation(o: Op) -> Mutation {
    Mutation { key: o.key_view(), value: o.value_view() }
}

/// Pending mutations, applied together by `Store::commit`.
pub struct Batch {
    ops: Vec<Op>,
}

impl Batch {
    /// The pending mutations, in order.
    pub closed spec fn ops(&self) -> Seq<Mutation> {
        self.ops@.map_values(|o: Op| op_mutation(o))
    }

    pub fn new() -> (r: Batch)
        ensures
            r.ops() == Seq::<Mutation>::empty(),
    {
        let r = Batch { ops: Vec::new() };
        assert(r.ops() =~= Seq::<Mutation>::empty());
        r
    }

    /// Adds a write of `value` under `key`.
    pub fn put(&mut self, key: &[u8], value: &[u8]) -> (r: Result<(), Error>)
        ensures
            r is Ok,
            final(self).ops() == old(self).ops().push(Mutation { key: key@, value: Some(value@) }),
    {
        self.ops.push(Op::Put { key: copy_bytes(key), value: copy_bytes(value) });
        assert(self.ops() =~= old(self).ops().push(Mutation { key: key@, value: Some(value@) }));
        Ok(())
    }

    /// Adds a deletion of `key`.
    pub fn delete(&mut self, key: &[u8]) -> (r: Result<(), Error>)
        ensures
            r is Ok,
            final(self).ops() == old(self).ops().push(Mutation { key: key@, value: None }),
    {
        self.ops.push(Op::Delete { key: copy_bytes(key) });
        assert(self.ops() =~= old(self).ops().push(Mutation { key: key@, value: None }));
        Ok(())
    }

    pub fn len(&self) -> (r: usize)
        ensures
            r == self.ops().len(),
    {
        self.ops.len()
    }
}

/// Two stacks whose segments hold the same entries have the same layers.
proof fn lemma_layers_same(a: Seq<Segment>, b: Seq<Segment>)
    requires
        a.len() == b.len(),
        forall|j: int| 0 <= j < a.len() ==> (#[trigger] a[j]).entries() == b[j].entries(),
    ensures
        layers(a) == layers(b),
    decreases a.len(),
{
    if a.len() > 0 {
        assert forall|j: int| 0 <= j < a.drop_last().len() implies (#[trigger] a.drop_last()[j]).entries() == b.drop_last()[j].entries() by {
            assert(a.drop_last()[j] == a[j]);
            assert(b.drop_last()[j] == b[j]);
        }
        lemma_layers_same(a.drop_last(), b.drop_last());
    }
}

pub struct Store {
    config: Config,
    mem: MemTable,
    segments: Vec<Segment>,
    wal: Wal,
    next_seq: u64,
    next_gen: u64,
}

fn copy_value(v: &Option<Vec<u8>>) -> (r: Option<Vec<u8>>)
    ensures
        bytes_view(r) == bytes_view(*v),
{
    match v {
        Some(b) => Some(copy_bytes(b.as_slice())),
        None => None,
    }
}

impl Store {
    /// Every entry the store reads from, oldest first: the segments by
    /// generation, then the memory table.
    pub closed spec fn history(&self) -> Seq<EntryV> {
        layers(self.segments@) + self.mem.entries()
    }

    /// What survives a crash: the segments, then the log.
    pub closed spec fn durable(&self) -> Seq<EntryV> {
        layers(self.segments@) + self.wal.records()
    }

    /// The visible key-value map.
    pub open spec fn view(&self) -> Map<Seq<u8>, Seq<u8>> {
        view_of(self.history())
    }

    /// The log's records since the last flush, oldest first.
    pub closed spec fn log_records(&self) -> Seq<EntryV> {
        self.wal.records()
    }

    /// The segments, oldest first.
    pub closed spec fn segment_stack(&self) -> Seq<Segment> {
        self.segments@
    }

    pub closed spec fn spec_config(&self) -> Config {
        self.config
    }

    /// The sequence number the next mutation gets.
    pub closed spec fn spec_next_seq(&self) -> u64 {
        self.next_seq
    }

    pub closed spec fn segment_count(&self) -> nat {
        self.segments@.len()
    }

    pub closed spec fn wal_len(&self) -> nat {
        self.wal.records().len()
    }

    pub closed spec fn wf(&self) -> bool {
        &&& self.mem.wf()
        &&& !self.mem.frozen()
        &&& segments_wf(self.segments@)
        &&& self.wal.wf()
        &&& same_lookups(self.mem.entries(), self.wal.records())
        &&& seqs_below(self.wal.records(), self.next_seq)
        &&& seqs_below(layers(self.segments@), self.next_seq)
    }

    /// An empty store.
    pub fn new(config: Config) -> (r: Store)
        ensures
            r.wf(),
            r.view() == Map::<Seq<u8>, Seq<u8>>::empty(),
            r.spec_config() == config,
            r.spec_next_seq() == 1,
            r.segment_count() == 0,
    {
        let r = Store { config, mem: MemTable::new(), segments: Vec::new(), wal: Wal::new(), next_seq: 1, next_gen: 1 };
        proof {
            assert(r.history() =~= Seq::<EntryV>::empty());
            assert(r.view() =~= Map::<Seq<u8>, Seq<u8>>::empty());
        }
        r
    }

    /// The value of `key`, or `None` when absent or deleted.
    pub fn get(&self, key: &[u8]) -> (r: Result<Option<Vec<u8>>, Error>)
        requires
            self.wf(),
        ensures
            r is Ok,
            bytes_view(r->Ok_0) == map_get(self.view(), key@),
    {
        let ghost l = layers(self.segments@);
        proof {
            lemma_map_get_view(self.history(), key@);
            lemma_lookup_concat(l, self.mem.entries(), key@);
        }
        match self.mem.get(key) {
            Some(e) => {
                return Ok(copy_value(&e.value));
            },
            None => {},
        }
        let mut i: usize = self.segments.len();
        assert(self.segments@.subrange(0, i as int) =~= self.segments@);
        while i > 0
            invariant
                segments_wf(self.segments@),
                l == layers(self.segments@),
                i <= self.segments@.len(),
                lookup(l, key@) == lookup(layers(self.segments@.subrange(0, i as int)), key@),
                map_get(self.view(), key@) == visible(l, key@),
            decreases i,
        {
            i = i - 1;
            let seg = &self.segments[i];
            let ghost upper = self.segments@.subrange(0, i + 1);
            proof {
                assert(upper.drop_last() =~= self.segments@.subrange(0, i as int));
                assert(self.segments@[i as int].wf());
                lemma_lookup_concat(layers(self.segments@.subrange(0, i as int)), seg.entries(), key@);
            }
            if seg.may_contain(key) {
                match seg.lookup(key) {
                    Some(e) => {
                        return Ok(copy_value(&e.value));
                    },
                    None => {},
                }
            }
        }
        assert(self.segments@.subrange(0, 0) =~= Seq::<Segment>::empty());
        Ok(None)
    }

    /// Whether `key` holds a value.
    pub fn contains_key(&self, key: &[u8]) -> (r: Result<bool, Error>)
        requires
            self.wf(),
        ensures
            r == Ok::<bool, Error>(self.view().contains_key(key@)),
    {
        match self.get(key) {
            Ok(v) => Ok(v.is_some()),
            Err(e) => Err(e),
        }
    }

    /// A new, empty batch.
    pub fn batch(&self) -> (r: Result<Batch, Error>)
        ensures
            r is Ok,
            r->Ok_0.ops() == Seq::<Mutation>::empty(),
    {
        Ok(Batch::new())
    }

    /// Opens a store from what was persisted: its segments (oldest first) and
    /// the log records written since the last flush. The log is replayed into
    /// a fresh memory table. Fails with `OpenError` when the log's sequence
    /// numbers do not strictly increase, or when a sequence number is the
    /// largest one, so that no later mutation could be numbered.
    pub fn recover(config: Config, segments: Vec<Segment>, records: Vec<WalRecord>) -> (r: Result<Store, Error>)
        requires
            segments_wf(segments@),
        ensures
            r is Ok <==> increasing(records_view(records@))
                && seqs_below(layers(segments@) + records_view(records@), u64::MAX),
            match r {
                Ok(s) => s.wf() && s.spec_config() == config
                    && s.view() == view_of(layers(segments@) + records_view(records@))
                    && seqs_below(layers(segments@) + records_view(records@), s.spec_next_seq()),
                Err(e) => e == Error::OpenError,
            },
    {
        let ghost l = layers(segments@);
        let ghost rv = records_view(records@);
        let wal = match Wal::from_records(records) {
            Ok(w) => w,
            Err(_) => {
                return Err(Error::OpenError);
            },
        };
        let mut next: u64 = 1;
        let mut next_gen: u64 = 1;
        let mut i: usize = 0;
        assert(segments@.subrange(0, 0) =~= Seq::<Segment>::empty());
        while i < segments.len()
            invariant
                segments_wf(segments@),
                l == layers(segments@),
                rv == records_view(records@),
                i <= segments@.len(),
                seqs_below(layers(segments@.subrange(0, i as int)), next),
            decreases segments@.len() - i,
        {
            let run = segments[i].iterate();
            let ghost s = entries_view(run@);
            let ghost lo = layers(segments@.subrange(0, i as int));
            let mut j: usize = 0;
            assert(lo + s.subrange(0, 0) =~= lo);
            while j < run.len()
                invariant
                    s == entries_view(run@),
                    s == segments@[i as int].entries(),
                    rv == records_view(records@),
                    lo == layers(segments@.subrange(0, i as int)),
                    l == layers(segments@),
                    i < segments@.len(),
                    j <= run@.len(),
                    seqs_below(lo + s.subrange(0, j as int), next),
                decreases run@.len() - j,
            {
                let q = run[j].seq;
                assert(s[j as int] == run@[j as int]@);
                if q == u64::MAX {
                    proof {
                        lemma_layers_at(segments@, i as int, j as int);
                        assert((l + rv)[lo.len() + j] == l[lo.len() + j]);
                        assert((l + rv)[lo.len() + j].seq == u64::MAX);
                    }
                    return Err(Error::OpenError);
                }
                let ghost before = next;
                if q >= next {
                    next = q + 1;
                }
                proof {
                    let p = lo + s.subrange(0, j + 1);
                    assert(p =~= (lo + s.subrange(0, j as int)).push(s[j as int]));
                    assert forall|x: int| 0 <= x < p.len() implies #[trigger] p[x].seq < next by {
                        if x < p.len() - 1 {
                            assert(p[x] == (lo + s.subrange(0, j as int))[x]);
                        }
                    }
                }
                j = j + 1;
            }
            let g = segments[i].generation();
            if g >= next_gen {
                next_gen = if g < u64::MAX { g + 1 } else { g };
            }
            proof {
                let up = segments@.subrange(0, i + 1);
                assert(up.drop_last() =~= segments@.subrange(0, i as int));
                assert(s.subrange(0, j as int) =~= s);
            }
            i = i + 1;
        }
        assert(segments@.subrange(0, segments@.len() as int) =~= segments@);
        match wal.last_seq() {
            Some(q) => {
                if q == u64::MAX {
                    proof {
                        assert((l + rv)[l.len() + rv.len() - 1] == rv[rv.len() - 1]);
                        assert((l + rv)[l.len() + rv.len() - 1].seq == u64::MAX);
                    }
                    return Err(Error::OpenError);
                }
                if q >= next {
                    next = q + 1;
                }
            },
            None => {},
        }
        proof {
            assert forall|x: int| 0 <= x < rv.len() implies #[trigger] rv[x].seq < next by {
                if x < rv.len() - 1 {
                    assert(rv[x].seq < rv[rv.len() - 1].seq);
                }
            }
            let all = l + rv;
            assert forall|x: int| 0 <= x < all.len() implies #[trigger] all[x].seq < next by {
                if x < l.len() {
                    assert(all[x] == l[x]);
                } else {
                    assert(all[x] == rv[x - l.len()]);
                }
            }
        }
        let mut mem = MemTable::new();
        let log = wal.replay();
        let mut k: usize = 0;
        assert(rv.subrange(0, 0) =~= Seq::<EntryV>::empty());
        while k < log.len()
            invariant
                records_view(log@) == rv,
                increasing(rv),
                k <= log@.len(),
                mem.wf(),
                !mem.frozen(),
                same_lookups(mem.entries(), rv.subrange(0, k as int)),
            decreases log@.len() - k,
        {
            let ghost pre = rv.subrange(0, k as int);
            let ghost mem0 = mem.entries();
            let e = log[k].to_entry();
            proof {
                assert(rv[k as int] == log@[k as int]@);
                assert forall|x: int| 0 <= x < pre.len() implies #[trigger] pre[x].seq < e.seq by {
                    assert(pre[x] == rv[x]);
                    assert(rv[x].seq < rv[k as int].seq);
                }
                if lookup(mem0, e@.key) is Some {
                    assert(lookup(mem0, e@.key) == lookup(pre, e@.key));
                    lemma_lookup_seqs_below(pre, e@.key, e.seq);
                }
            }
            let res = mem.insert(e);
            proof {
                let nx = rv.subrange(0, k + 1);
                assert(pre.push(rv[k as int]) =~= nx);
                assert forall|key: Seq<u8>| #[trigger] lookup(mem.entries(), key) == lookup(nx, key) by {
                    lemma_lookup_push(mem0, rv[k as int], key);
                    lemma_lookup_push(pre, rv[k as int], key);
                }
            }
            k = k + 1;
        }
        proof {
            assert(rv.subrange(0, log@.len() as int) =~= rv);
            lemma_same_lookups_under(l, mem.entries(), rv);
        }
        Ok(Store { config, mem, segments, wal, next_seq: next, next_gen })
    }

    /// Simulates a crash and a restart: drops the memory table and opens a
    /// store from copies of the segments and the log alone.
    pub fn reopen(&self) -> (r: Result<Store, Error>)
        requires
            self.wf(),
        ensures
            r is Ok,
            r->Ok_0.wf(),
            r->Ok_0.view() == self.view(),
            r->Ok_0.spec_config() == self.spec_config(),
    {
        let mut segs: Vec<Segment> = Vec::new();
        let mut i: usize = 0;
        while i < self.segments.len()
            invariant
                segments_wf(self.segments@),
                i <= self.segments@.len(),
                segs@.len() == i,
                forall|j: int| 0 <= j < i ==> (#[trigger] segs@[j]).entries() == self.segments@[j].entries()
                    && segs@[j].wf(),
            decreases self.segments@.len() - i,
        {
            segs.push(self.segments[i].duplicate());
            i = i + 1;
        }
        proof {
            lemma_layers_same(segs@, self.segments@);
            assert(self.durable() == layers(self.segments@) + self.wal.records());
            lemma_durable_view(*self);
        }
        Store::recover(self.config, segs, self.wal.replay_owned())
    }

    /// Opens a store from its segments and the bytes of its log; the log is
    /// decoded up to the first record that is cut short or fails its
    /// checksum, and what follows that is dropped.
    pub fn open(config: Config, segments: Vec<Segment>, log: &[u8]) -> (r: Result<Store, Error>)
        requires
            segments_wf(segments@),
        ensures
            r is Ok <==> increasing(parse_log(log@)) && seqs_below(layers(segments@) + parse_log(log@), u64::MAX),
            match r {
                Ok(s) => s.wf() && s.spec_config() == config
                    && s.view() == view_of(layers(segments@) + parse_log(log@)),
                Err(e) => e == Error::OpenError,
            },
    {
        let (records, _) = decode_log(log);
        Store::recover(config, segments, records)
    }

    /// The bytes of the log, as they are persisted.
    pub fn wal_bytes(&self) -> (r: Vec<u8>)
        ensures
            r@ == log_bytes(self.log_records()),
    {
        encode_log(self.wal.replay())
    }

    /// The segments, oldest first.
    pub fn segments(&self) -> (r: &Vec<Segment>)
        requires
            self.wf(),
        ensures
            r@ == self.segment_stack(),
            segments_wf(r@),
    {
        &self.segments
    }

    /// Seals the memory table, writes it out as the newest segment, starts an
    /// empty one, and only then drops the log records it covered.
    fn flush(&mut self)
        requires
            old(self).wf(),
            old(self).next_gen < u64::MAX,
        ensures
            final(self).wf(),
            final(self).view() == old(self).view(),
            final(self).config == old(self).config,
            final(self).next_seq == old(self).next_seq,
            final(self).next_gen == old(self).next_gen + 1,
            final(self).segments@.len() == old(self).segments@.len() + 1,
            final(self).wal.records().len() == 0,
    {
        let ghost l = layers(self.segments@);
        let ghost me = self.mem.entries();
        let ghost w = self.wal.records();
        let ghost bound = self.next_seq;
        proof {
            assert forall|i: int| 0 <= i < me.len() implies #[trigger] me[i].seq < bound by {
                lemma_lookup_sorted(me, i);
                assert(lookup(me, me[i].key) == lookup(w, me[i].key));
                lemma_lookup_seqs_below(w, me[i].key, bound);
            }
        }
        let mut m = MemTable::new();
        core::mem::swap(&mut self.mem, &mut m);
        m.freeze();
        let run = m.into_run();
        let seg = Segment::build(run, self.next_gen);
        self.next_gen = self.next_gen + 1;
        self.segments.push(seg);
        self.wal.truncate(self.next_seq);
        proof {
            let segs = self.segments@;
            assert(segs.drop_last() =~= old(self).segments@);
            assert(layers(segs) == l + me);
            assert(self.history() =~= l + me);
            let f = self.wal.records();
            if f.len() > 0 {
                assert(f[0] == w[w.len() - f.len()]);
            }
            assert forall|i: int| 0 <= i < segs.len() implies (#[trigger] segs[i]).wf() by {
                if i < segs.len() - 1 {
                    assert(segs[i] == old(self).segments@[i]);
                }
            }
            assert forall|i: int| 0 <= i < (l + me).len() implies #[trigger] (l + me)[i].seq < bound by {
                if i < l.len() {
                    assert((l + me)[i] == l[i]);
                } else {
                    assert((l + me)[i] == me[i - l.len()]);
                }
            }
            assert(self.mem.entries() =~= f);
        }
    }

    /// Replaces all segments with their compaction, under a new generation.
    fn compact_segments(&mut self)
        requires
            old(self).wf(),
            old(self).next_gen < u64::MAX,
        ensures
            final(self).wf(),
            final(self).view() == old(self).view(),
            final(self).config == old(self).config,
            final(self).next_seq == old(self).next_seq,
            final(self).next_gen == old(self).next_gen + 1,
            final(self).segments@.len() == 1,
            final(self).wal == old(self).wal,
    {
        let ghost l = layers(self.segments@);
        let ghost me = self.mem.entries();
        let ghost bound = self.next_seq;
        let merged = compact(&self.segments, self.next_gen);
        let ghost c = merged.entries();
        let ghost mg = merged;
        self.next_gen = self.next_gen + 1;
        let mut segs: Vec<Segment> = Vec::new();
        segs.push(merged);
        self.segments = segs;
        proof {
            let s = self.segments@;
            assert(s.drop_last() =~= Seq::<Segment>::empty());
            assert(s.last() == mg);
            assert(layers(Seq::<Segment>::empty()) == Seq::<EntryV>::empty());
            assert(layers(s) =~= c);
            assert forall|k: Seq<u8>| #[trigger] visible(c + me, k) == visible(l + me, k) by {
                lemma_lookup_concat(c, me, k);
                lemma_lookup_concat(l, me, k);
            }
            assert(view_of(c + me) =~= view_of(l + me));
            assert forall|i: int| 0 <= i < c.len() implies #[trigger] c[i].seq < bound by {
                lemma_lookup_sorted(c, i);
                lemma_lookup_seqs_below(l, c[i].key, bound);
            }
            assert forall|i: int| 0 <= i < s.len() implies (#[trigger] s[i]).wf() by {}
        }
    }

    /// Applies a batch atomically: each mutation gets the next sequence
    /// number, the batch is appended to the log, then applied to the memory
    /// table; a full memory table is then flushed and, with enough segments,
    /// the segments are compacted. Fails with `OrderingViolation`, changing
    /// nothing, when the sequence numbers would run out.
    pub fn commit(&mut self, batch: Batch) -> (r: Result<(), Error>)
        requires
            old(self).wf(),
        ensures
            final(self).wf(),
            final(self).spec_config() == old(self).spec_config(),
            r is Ok <==> old(self).spec_next_seq() + batch.ops().len() <= u64::MAX,
            r is Ok ==> final(self).view() == apply_mutations(old(self).view(), batch.ops()),
            r is Ok ==> final(self).spec_next_seq() == old(self).spec_next_seq() + batch.ops().len(),
            r is Err ==> r == Err::<(), Error>(Error::OrderingViolation) && *final(self) == *old(self),
    {
        let n = batch.ops.len();
        if self.next_seq > u64::MAX - (n as u64) {
            return Err(Error::OrderingViolation);
        }
        let ghost ops = batch.ops();
        let ghost l = layers(self.segments@);
        let ghost w0 = self.wal.records();
        let ghost view0 = self.view();
        let ghost s0 = *self;
        let base = self.next_seq;
        let mut records: Vec<WalRecord> = Vec::new();
        let mut i: usize = 0;
        while i < n
            invariant
                n == batch.ops@.len(),
                ops == batch.ops(),
                base as int + n <= u64::MAX,
                i <= n,
                records@.len() == i,
                forall|j: int| 0 <= j < i ==> (#[trigger] records@[j])@ == logged(ops, base, j),
            decreases n - i,
        {
            let op = batch.ops[i].duplicate();
            records.push(WalRecord { seq: base + i as u64, op });
            i = i + 1;
        }
        let ghost rv = records_view(records@);
        proof {
            assert forall|j: int| 0 <= j < rv.len() implies #[trigger] rv[j] == logged(ops, base, j) by {
                assert(rv[j] == records@[j]@);
            }
            let c = w0 + rv;
            assert forall|x: int, y: int| 0 <= x < y < c.len() implies #[trigger] c[x].seq < #[trigger] c[y].seq by {
                if x < w0.len() {
                    assert(c[x] == w0[x]);
                } else {
                    assert(c[x] == rv[x - w0.len()]);
                }
                if y >= w0.len() {
                    assert(c[y] == rv[y - w0.len()]);
                }
            }
        }
        match self.wal.append(records) {
            Ok(()) => {},
            Err(e) => {
                return Err(e);
            },
        }
        let total = self.wal.replay().len();
        let w0len = total - n;
        assert(rv.len() == n);
        assert(ops.len() == n);
        assert(w0len == w0.len());
        let mut i: usize = 0;
        proof {
            assert(rv.subrange(0, 0) =~= Seq::<EntryV>::empty());
            assert(w0 + rv.subrange(0, 0) =~= w0);
            assert(ops.subrange(0, 0) =~= Seq::<Mutation>::empty());
            lemma_same_lookups_under(l, self.mem.entries(), w0);
        }
        while i < n
            invariant
                n == rv.len(),
                w0len == w0.len(),
                self.wal.wf(),
                self.wal.records() == w0 + rv,
                self.wal.records().len() == w0len + n,
                total == w0len + n,
                ops.len() == n,
                self.config == s0.config,
                self.next_seq == base,
                self.next_gen == s0.next_gen,
                self.segments == s0.segments,
                segments_wf(self.segments@),
                seqs_below(l, base),
                i <= n,
                self.mem.wf(),
                !self.mem.frozen(),
                l == layers(self.segments@),
                same_lookups(self.mem.entries(), w0 + rv.subrange(0, i as int)),
                seqs_below(w0, base),
                base as int + n <= u64::MAX,
                forall|j: int| 0 <= j < rv.len() ==> #[trigger] rv[j] == logged(ops, base, j),
                view_of(l + self.mem.entries()) == apply_mutations(view0, ops.subrange(0, i as int)),
                view_of(l + (w0 + rv.subrange(0, i as int))) == view_of(l + self.mem.entries()),
            decreases n - i,
        {
            let ghost pre = w0 + rv.subrange(0, i as int);
            let ghost mem0 = self.mem.entries();
            let log = self.wal.replay();
            let e = log[w0len + i].to_entry();
            proof {
                assert(records_view(log@)[w0len + i] == log@[w0len + i]@);
                assert((w0 + rv)[w0len + i] == rv[i as int]);
                assert(e@ == rv[i as int]);
                assert forall|j: int| 0 <= j < pre.len() implies #[trigger] pre[j].seq < base + i by {
                    if j < w0.len() {
                        assert(pre[j] == w0[j]);
                    } else {
                        assert(pre[j] == rv[j - w0.len()]);
                    }
                }
                if lookup(mem0, e@.key) is Some {
                    assert(lookup(mem0, e@.key) == lookup(pre, e@.key));
                    lemma_lookup_seqs_below(pre, e@.key, (base + i) as u64);
                }
            }
            let res = self.mem.insert(e);
            proof {
                let next = w0 + rv.subrange(0, i + 1);
                assert(pre.push(rv[i as int]) =~= next);
                assert forall|k: Seq<u8>| #[trigger] lookup(self.mem.entries(), k) == lookup(next, k) by {
                    lemma_lookup_push(mem0, rv[i as int], k);
                    lemma_lookup_push(pre, rv[i as int], k);
                }
                lemma_same_lookups_under(l, self.mem.entries(), next);
                assert((l + pre).push(rv[i as int]) =~= l + next);
                lemma_view_push(l + pre, rv[i as int]);
                assert(ops.subrange(0, i + 1).drop_last() =~= ops.subrange(0, i as int));
                assert(Mutation { key: rv[i as int].key, value: rv[i as int].value } == ops[i as int]);
            }
            i = i + 1;
        }
        self.next_seq = base + n as u64;
        proof {
            assert(rv.subrange(0, n as int) =~= rv);
            assert(ops.subrange(0, n as int) =~= ops);
            let w = w0 + rv;
            assert forall|j: int| 0 <= j < w.len() implies #[trigger] w[j].seq < self.next_seq by {
                if j < w0.len() {
                    assert(w[j] == w0[j]);
                } else {
                    assert(w[j] == rv[j - w0.len()]);
                }
            }
        }
        if self.mem.size_bytes() > self.config.memtable_size_threshold && self.next_gen < u64::MAX {
            self.flush();
        }
        if self.config.compaction_trigger_segment_count > 0
            && self.segments.len() >= self.config.compaction_trigger_segment_count
            && self.next_gen < u64::MAX {
            self.compact_segments();
        }
        Ok(())
    }

    pub fn config(&self) -> (r: Config)
        ensures
            r == self.spec_config(),
    {
        self.config
    }

    pub fn next_sequence(&self) -> (r: u64)
        ensures
            r == self.spec_next_seq(),
    {
        self.next_seq
    }

    pub fn segment_len(&self) -> (r: usize)
        ensures
            r == self.segment_count(),
    {
        self.segments.len()
    }

    pub fn wal_records(&self) -> (r: usize)
        ensures
            r == self.wal_len(),
    {
        self.wal.replay().len()
    }
}

/// What survives a crash shows the same key-value map as the running store:
/// replaying the log over the segments reproduces the visible state.
pub proof fn lemma_durable_view(s: Store)
    requires
        s.wf(),
    ensures
        view_of(s.durable()) == s.view(),
{
    lemma_same_lookups_under(layers(s.segments@), s.mem.entries(), s.wal.records());
}

/// Crash recovery: the bytes of the log, with a last record torn by a crash
/// after them, replayed over the segments, show exactly the store's visible
/// state: every committed mutation is recovered and the torn one dropped.
pub proof fn lemma_crash_recovery(s: Store, torn: Seq<u8>)
    requires
        s.wf(),
        forall|i: int| 0 <= i < s.log_records().len() ==> encodable(#[trigger] s.log_records()[i]),
        parse_record(torn) is None,
    ensures
        view_of(layers(s.segment_stack()) + parse_log(log_bytes(s.log_records()) + torn)) == s.view(),
        increasing(parse_log(log_bytes(s.log_records()) + torn)),
{
    lemma_torn_tail_dropped(s.log_records(), torn);
    lemma_durable_view(s);
}

} // verus!
