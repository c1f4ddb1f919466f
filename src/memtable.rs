//! The memory table: the most recent writes, as a sorted run keyed by key,
//! each key holding its latest value or tombstone and sequence number.
use vstd::prelude::*;
use crate::error::Error;
use crate::key::copy_bytes;
use crate::run::{Entry, EntryV, entries_view, lookup, sorted, search, upsert};

verus! {

/// `a + b`, or `usize::MAX` when that does not fit.
pub open spec fn sat_add(a: usize, b: int) -> usize {
    if a + b <= usize::MAX { (a + b) as usize } else { usize::MAX }
}

/// The bytes that an entry accounts for in a memory table.
pub open spec fn entry_bytes(e: EntryV) -> int {
    e.key.len() + match e.value {
        Some(v) => v.len() as int,
        None => 0int,
    }
}

pub struct MemTable {
    entries: Vec<Entry>,
    size: usize,
    frozen: bool,
}

impl MemTable {
    /// The entries, in key order.
    pub closed spec fn entries(&self) -> Seq<EntryV> {
        entries_view(self.entries@)
    }

    /// Bytes written into the table so far (saturating).
    pub closed spec fn size(&self) -> usize {
        self.size
    }

    /// Whether the table has been sealed.
    pub closed spec fn frozen(&self) -> bool {
        self.frozen
    }

    pub open spec fn wf(&self) -> bool {
        sorted(self.entries())
    }

    /// An empty, writable table.
    pub fn new() -> (r: MemTable)
        ensures
            r.wf(),
            r.entries() == Seq::<EntryV>::empty(),
            r.size() == 0,
            !r.frozen(),
    {
        let r = MemTable { entries: Vec::new(), size: 0, frozen: false };
        assert(r.entries() =~= Seq::<EntryV>::empty());
        r
    }

    /// Writes an entry: fails with `Frozen` on a sealed table, and with
    /// `OrderingViolation` when the key already holds an entry whose sequence
    /// number is not lower; otherwise the entry replaces any older one.
    pub fn insert(&mut self, e: Entry) -> (r: Result<(), Error>)
        requires
            old(self).wf(),
        ensures
            final(self).wf(),
            final(self).frozen() == old(self).frozen(),
            old(self).frozen() ==> r == Err::<(), Error>(Error::Frozen),
            !old(self).frozen() && lookup(old(self).entries(), e@.key) is Some
                && lookup(old(self).entries(), e@.key)->0.seq >= e.seq
                ==> r == Err::<(), Error>(Error::OrderingViolation),
            r is Ok <==> !old(self).frozen() && (lookup(old(self).entries(), e@.key) is Some
                ==> lookup(old(self).entries(), e@.key)->0.seq < e.seq),
            r is Ok ==> forall|k: Seq<u8>| #[trigger] lookup(final(self).entries(), k)
                == lookup(old(self).entries().push(e@), k),
            r is Ok ==> final(self).size() == sat_add(old(self).size(), entry_bytes(e@)),
            r is Err ==> *final(self) == *old(self),
    {
        if self.frozen {
            return Err(Error::Frozen);
        }
        match search(&self.entries, e.key.as_slice()) {
            Ok(i) => {
                if self.entries[i].seq >= e.seq {
                    return Err(Error::OrderingViolation);
                }
            },
            Err(_) => {},
        }
        let klen = e.key.len();
        let vlen = match &e.value {
            Some(v) => v.len(),
            None => 0,
        };
        let add = if klen <= usize::MAX - vlen { klen + vlen } else { usize::MAX };
        self.size = if self.size <= usize::MAX - add { self.size + add } else { usize::MAX };
        upsert(&mut self.entries, e);
        Ok(())
    }

    /// Records `value` under `key` at sequence number `seq`.
    pub fn put(&mut self, key: &[u8], value: &[u8], seq: u64) -> (r: Result<(), Error>)
        requires
            old(self).wf(),
        ensures
            final(self).wf(),
            final(self).frozen() == old(self).frozen(),
            old(self).frozen() ==> r == Err::<(), Error>(Error::Frozen),
            r is Ok <==> !old(self).frozen() && (lookup(old(self).entries(), key@) is Some
                ==> lookup(old(self).entries(), key@)->0.seq < seq),
            r is Ok ==> forall|k: Seq<u8>| #[trigger] lookup(final(self).entries(), k)
                == lookup(old(self).entries().push(EntryV { key: key@, value: Some(value@), seq }), k),
            r is Err ==> *final(self) == *old(self),
    {
        let e = Entry { key: copy_bytes(key), value: Some(copy_bytes(value)), seq };
        self.insert(e)
    }

    /// Records a tombstone for `key` at sequence number `seq`.
    pub fn delete(&mut self, key: &[u8], seq: u64) -> (r: Result<(), Error>)
        requires
            old(self).wf(),
        ensures
            final(self).wf(),
            final(self).frozen() == old(self).frozen(),
            old(self).frozen() ==> r == Err::<(), Error>(Error::Frozen),
            r is Ok <==> !old(self).frozen() && (lookup(old(self).entries(), key@) is Some
                ==> lookup(old(self).entries(), key@)->0.seq < seq),
            r is Ok ==> forall|k: Seq<u8>| #[trigger] lookup(final(self).entries(), k)
                == lookup(old(self).entries().push(EntryV { key: key@, value: None, seq }), k),
            r is Err ==> *final(self) == *old(self),
    {
        let e = Entry { key: copy_bytes(key), value: None, seq };
        self.insert(e)
    }

    /// The entry for `key`, value or tombstone, if the table holds one.
    pub fn get(&self, key: &[u8]) -> (r: Option<&Entry>)
        requires
            self.wf(),
        ensures
            match r {
                Some(e) => lookup(self.entries(), key@) == Some(e@),
                None => lookup(self.entries(), key@) is None,
            },
    {
        match search(&self.entries, key) {
            Ok(i) => Some(&self.entries[i]),
            Err(_) => None,
        }
    }

    pub fn size_bytes(&self) -> (r: usize)
        ensures
            r == self.size(),
    {
        self.size
    }

    pub fn len(&self) -> (r: usize)
        ensures
            r == self.entries().len(),
    {
        self.entries.len()
    }

    /// The entries in key order.
    pub fn iterate(&self) -> (r: &Vec<Entry>)
        ensures
            entries_view(r@) == self.entries(),
    {
        &self.entries
    }

    /// Hands the table's run over, in key order.
    pub fn into_run(self) -> (r: Vec<Entry>)
        requires
            self.wf(),
        ensures
            entries_view(r@) == self.entries(),
            sorted(entries_view(r@)),
    {
        self.entries
    }

    /// Seals the table against further writes.
    pub fn freeze(&mut self)
        ensures
            final(self).entries() == old(self).entries(),
            final(self).size() == old(self).size(),
            final(self).frozen(),
    {
        self.frozen = true;
    }

    pub fn is_frozen(&self) -> (r: bool)
        ensures
            r == self.frozen(),
    {
        self.frozen
    }
}

} // verus!
