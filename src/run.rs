//! Entries and sorted runs. A run is a sequence of entries with strictly
//! increasing keys; the memory table and every segment hold one. The value of
//! a key in any sequence of entries is the one of its last entry, so layering
//! sequences (older first) gives the newest value.
use vstd::prelude::*;
use crate::key::{key_lt, lemma_key_order, compare_keys, copy_bytes};

verus! {

/// One versioned entry: a value, or a tombstone (`None`) for a deletion.
pub struct Entry {
    pub key: Vec<u8>,
    pub value: Option<Vec<u8>>,
    pub seq: u64,
}

/// What an entry holds, as plain values.
pub struct EntryV {
    pub key: Seq<u8>,
    pub value: Option<Seq<u8>>,
    pub seq: u64,
}

pub open spec fn bytes_view(v: Option<Vec<u8>>) -> Option<Seq<u8>> {
    match v {
        Some(b) => Some(b@),
        None => None,
    }
}

impl View for Entry {
    type V = EntryV;

    open spec fn view(&self) -> EntryV {
        EntryV { key: self.key@, value: bytes_view(self.value), seq: self.seq }
    }
}

impl Entry {
    /// A deep copy of the entry.
    pub fn duplicate(&self) -> (r: Entry)
        ensures
            r@ == self@,
    {
        let value = match &self.value {
            Some(v) => Some(copy_bytes(v.as_slice())),
            None => None,
        };
        Entry { key: copy_bytes(self.key.as_slice()), value, seq: self.seq }
    }
}

/// A deep copy of a sequence of entries.
pub fn duplicate_entries(v: &Vec<Entry>) -> (r: Vec<Entry>)
    ensures
        entries_view(r@) == entries_view(v@),
{
    let mut out: Vec<Entry> = Vec::new();
    let mut i: usize = 0;
    while i < v.len()
        invariant
            i <= v@.len(),
            out@.len() == i,
            forall|j: int| 0 <= j < i ==> (#[trigger] out@[j])@ == v@[j]@,
        decreases v@.len() - i,
    {
        out.push(v[i].duplicate());
        i = i + 1;
    }
    assert(entries_view(out@) =~= entries_view(v@));
    out
}

pub open spec fn entries_view(s: Seq<Entry>) -> Seq<EntryV> {
    s.map_values(|e: Entry| e@)
}

/// The last entry for `k` in `s`, if any.
pub open spec fn lookup(s: Seq<EntryV>, k: Seq<u8>) -> Option<EntryV>
    decreases s.len(),
{
    if s.len() == 0 {
        None
    } else if s.last().key == k {
        Some(s.last())
    } else {
        lookup(s.drop_last(), k)
    }
}

/// The value that `s` gives to `k`: none when absent or deleted.
pub open spec fn visible(s: Seq<EntryV>, k: Seq<u8>) -> Option<Seq<u8>> {
    match lookup(s, k) {
        Some(e) => e.value,
        None => None,
    }
}

/// Keys strictly increase along `s`.
pub open spec fn sorted(s: Seq<EntryV>) -> bool {
    forall|i: int, j: int| 0 <= i < j < s.len() ==> key_lt(#[trigger] s[i].key, #[trigger] s[j].key)
}

/// Every entry of `s` has a sequence number below `bound`.
pub open spec fn seqs_below(s: Seq<EntryV>, bound: u64) -> bool {
    forall|i: int| 0 <= i < s.len() ==> #[trigger] s[i].seq < bound
}

pub proof fn lemma_lookup_push(s: Seq<EntryV>, e: EntryV, k: Seq<u8>)
    ensures
        lookup(s.push(e), k) == if e.key == k { Some(e) } else { lookup(s, k) },
{
    assert(s.push(e).drop_last() =~= s);
}

pub proof fn lemma_lookup_found(s: Seq<EntryV>, k: Seq<u8>)
    requires
        lookup(s, k) is Some,
    ensures
        exists|i: int| 0 <= i < s.len() && s[i] == lookup(s, k)->0 && s[i].key == k,
    decreases s.len(),
{
    if s.last().key != k {
        lemma_lookup_found(s.drop_last(), k);
        let i = choose|i: int| 0 <= i < s.drop_last().len() && s.drop_last()[i] == lookup(s.drop_last(), k)->0
            && s.drop_last()[i].key == k;
        assert(s[i] == s.drop_last()[i]);
    } else {
        assert(s[s.len() - 1] == s.last());
    }
}

pub proof fn lemma_lookup_absent(s: Seq<EntryV>, k: Seq<u8>)
    requires
        forall|i: int| 0 <= i < s.len() ==> #[trigger] s[i].key != k,
    ensures
        lookup(s, k) is None,
    decreases s.len(),
{
    if s.len() > 0 {
        assert(s.last() == s[s.len() - 1]);
        assert forall|i: int| 0 <= i < s.drop_last().len() implies #[trigger] s.drop_last()[i].key != k by {
            assert(s.drop_last()[i] == s[i]);
        }
        lemma_lookup_absent(s.drop_last(), k);
    }
}

pub proof fn lemma_lookup_sorted(s: Seq<EntryV>, i: int)
    requires
        sorted(s),
        0 <= i < s.len(),
    ensures
        lookup(s, s[i].key) == Some(s[i]),
    decreases s.len(),
{
    lemma_key_order();
    if i < s.len() - 1 {
        assert(key_lt(s[i].key, s[s.len() - 1].key));
        assert(s.drop_last()[i] == s[i]);
        lemma_lookup_sorted(s.drop_last(), i);
    }
}

pub proof fn lemma_lookup_seqs_below(s: Seq<EntryV>, k: Seq<u8>, bound: u64)
    requires
        seqs_below(s, bound),
        lookup(s, k) is Some,
    ensures
        lookup(s, k)->0.seq < bound,
{
    lemma_lookup_found(s, k);
}

/// Looking a key up in `a + b` finds it in `b` first, then in `a`.
pub proof fn lemma_lookup_concat(a: Seq<EntryV>, b: Seq<EntryV>, k: Seq<u8>)
    ensures
        lookup(a + b, k) == match lookup(b, k) {
            Some(e) => Some(e),
            None => lookup(a, k),
        },
    decreases b.len(),
{
    if b.len() == 0 {
        assert(a + b =~= a);
    } else {
        assert((a + b).drop_last() =~= a + b.drop_last());
        assert((a + b).last() == b.last());
        lemma_lookup_concat(a, b.drop_last(), k);
    }
}

/// Searches a sorted run for `k`: `Ok` with its index, or `Err` with the
/// position at which it would be inserted.
pub fn search(run: &Vec<Entry>, k: &[u8]) -> (r: Result<usize, usize>)
    requires
        sorted(entries_view(run@)),
    ensures
        match r {
            Ok(i) => i < run@.len() && run@[i as int].key@ == k@,
            Err(p) => p <= run@.len()
                && (forall|i: int| 0 <= i < p ==> key_lt(#[trigger] run@[i].key@, k@))
                && (forall|i: int| p <= i < run@.len() ==> key_lt(k@, #[trigger] run@[i].key@)),
        },
        r is Err ==> lookup(entries_view(run@), k@) is None,
        r is Ok ==> lookup(entries_view(run@), k@) == Some(run@[r->Ok_0 as int]@),
{
    let ghost s = entries_view(run@);
    proof { lemma_key_order(); }
    let mut lo: usize = 0;
    let mut hi: usize = run.len();
    while lo < hi
        invariant
            s == entries_view(run@),
            sorted(s),
            lo <= hi <= run@.len(),
            forall|i: int| 0 <= i < lo ==> key_lt(#[trigger] run@[i].key@, k@),
            forall|i: int| hi <= i < run@.len() ==> key_lt(k@, #[trigger] run@[i].key@),
        decreases hi - lo,
    {
        let mid = lo + (hi - lo) / 2;
        proof { lemma_key_order(); }
        let mk = run[mid].key.as_slice();
        let c = compare_keys(mk, k);
        assert(mk@ == run@[mid as int].key@);
        assert(s[mid as int] == run@[mid as int]@);
        match c {
            core::cmp::Ordering::Less => {
                assert forall|i: int| 0 <= i < mid + 1 implies key_lt(#[trigger] run@[i].key@, k@) by {
                    if i < mid {
                        assert(s[i] == run@[i]@);
                        assert(key_lt(s[i].key, s[mid as int].key));
                    }
                }
                lo = mid + 1;
            },
            core::cmp::Ordering::Greater => {
                assert forall|i: int| mid <= i < run@.len() implies key_lt(k@, #[trigger] run@[i].key@) by {
                    if i > mid {
                        assert(s[i] == run@[i]@);
                        assert(key_lt(s[mid as int].key, s[i].key));
                    }
                }
                hi = mid;
            },
            core::cmp::Ordering::Equal => {
                proof { lemma_lookup_sorted(s, mid as int); }
                return Ok(mid);
            },
        }
    }
    proof {
        assert forall|i: int| 0 <= i < s.len() implies #[trigger] s[i].key != k@ by {
            assert(s[i] == run@[i]@);
        }
        lemma_lookup_absent(s, k@);
    }
    Err(lo)
}

/// Puts `e` into a sorted run, replacing the entry with the same key if any.
pub fn upsert(run: &mut Vec<Entry>, e: Entry)
    requires
        sorted(entries_view(old(run)@)),
    ensures
        sorted(entries_view(final(run)@)),
        forall|k: Seq<u8>| #[trigger] lookup(entries_view(final(run)@), k)
            == lookup(entries_view(old(run)@).push(e@), k),
{
    let ghost s = entries_view(run@);
    let ghost ev = e@;
    proof { lemma_key_order(); }
    match search(run, e.key.as_slice()) {
        Ok(i) => {
            run.set(i, e);
            proof {
                let t = entries_view(run@);
                assert(t =~= s.update(i as int, ev));
                assert forall|a: int, b: int| 0 <= a < b < t.len() implies key_lt(#[trigger] t[a].key, #[trigger] t[b].key) by {
                    assert(t[a].key == s[a].key);
                    assert(t[b].key == s[b].key);
                }
                assert forall|k: Seq<u8>| #[trigger] lookup(t, k) == lookup(s.push(ev), k) by {
                    lemma_lookup_push(s, ev, k);
                    if k == ev.key {
                        lemma_lookup_sorted(t, i as int);
                    } else if lookup(s, k) is Some {
                        lemma_lookup_found(s, k);
                        let j = choose|j: int| 0 <= j < s.len() && s[j] == lookup(s, k)->0 && s[j].key == k;
                        lemma_lookup_sorted(t, j);
                        lemma_lookup_sorted(s, j);
                    } else {
                        assert forall|j: int| 0 <= j < t.len() implies #[trigger] t[j].key != k by {
                            if j != i {
                                if t[j].key == k {
                                    lemma_lookup_sorted(s, j);
                                }
                            }
                        }
                        lemma_lookup_absent(t, k);
                    }
                }
            }
        },
        Err(p) => {
            run.insert(p, e);
            proof {
                let t = entries_view(run@);
                assert(t =~= s.insert(p as int, ev));
                assert forall|a: int, b: int| 0 <= a < b < t.len() implies key_lt(#[trigger] t[a].key, #[trigger] t[b].key) by {
                    if a < p && b < p {
                        assert(key_lt(s[a].key, s[b].key));
                    } else if a < p && b == p {
                        assert(s[a] == run@[a]@);
                    } else if a < p {
                        assert(s[b - 1] == run@[b]@);
                        assert(key_lt(s[a].key, s[b - 1].key));
                    } else if a == p {
                        assert(s[b - 1] == run@[b]@);
                    } else {
                        assert(key_lt(s[a - 1].key, s[b - 1].key));
                    }
                }
                assert forall|k: Seq<u8>| #[trigger] lookup(t, k) == lookup(s.push(ev), k) by {
                    lemma_lookup_push(s, ev, k);
                    if k == ev.key {
                        lemma_lookup_sorted(t, p as int);
                    } else if lookup(s, k) is Some {
                        lemma_lookup_found(s, k);
                        let j = choose|j: int| 0 <= j < s.len() && s[j] == lookup(s, k)->0 && s[j].key == k;
                        lemma_lookup_sorted(s, j);
                        if j < p {
                            assert(t[j] == s[j]);
                            lemma_lookup_sorted(t, j);
                        } else {
                            assert(t[j + 1] == s[j]);
                            lemma_lookup_sorted(t, j + 1);
                        }
                    } else {
                        assert forall|j: int| 0 <= j < t.len() implies #[trigger] t[j].key != k by {
                            if j < p && t[j].key == k {
                                assert(t[j] == s[j]);
                                lemma_lookup_sorted(s, j);
                            } else if j > p && t[j].key == k {
                                assert(t[j] == s[j - 1]);
                                lemma_lookup_sorted(s, j - 1);
                            }
                        }
                        lemma_lookup_absent(t, k);
                    }
                }
            }
        },
    }
}

} // verus!
