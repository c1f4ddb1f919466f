//! Full compaction: merges a stack of segments into one, where for each key
//! the newest entry wins and tombstones are dropped, since no older segment
//! remains for them to shadow.
use vstd::prelude::*;
use crate::key::{key_lt, lemma_key_order};
use crate::run::{Entry, EntryV, entries_view, lookup, visible, sorted, upsert, lemma_lookup_push, lemma_lookup_absent, lemma_lookup_found};
use crate::segment::Segment;

verus! {

/// All entries of a stack of segments, oldest segment first.
pub open spec fn layers(segs: Seq<Segment>) -> Seq<EntryV>
    decreases segs.len(),
{
    if segs.len() == 0 {
        Seq::empty()
    } else {
        layers(segs.drop_last()) + segs.last().entries()
    }
}

pub proof fn lemma_layers_concat(a: Seq<Segment>, b: Seq<Segment>)
    ensures
        layers(a + b) == layers(a) + layers(b),
    decreases b.len(),
{
    if b.len() == 0 {
        assert(a + b =~= a);
        assert(layers(a) + layers(b) =~= layers(a));
    } else {
        assert((a + b).drop_last() =~= a + b.drop_last());
        assert((a + b).last() == b.last());
        lemma_layers_concat(a, b.drop_last());
        assert(layers(a + b) =~= layers(a) + layers(b));
    }
}

/// The entries of the `i`-th segment stand in the stack's layers right after
/// those of the segments below it.
pub proof fn lemma_layers_at(segs: Seq<Segment>, i: int, j: int)
    requires
        0 <= i < segs.len(),
        0 <= j < segs[i].entries().len(),
    ensures
        layers(segs.subrange(0, i)).len() + j < layers(segs).len(),
        layers(segs)[layers(segs.subrange(0, i)).len() + j] == segs[i].entries()[j],
{
    let lo = segs.subrange(0, i);
    let one = segs.subrange(i, i + 1);
    let hi = segs.subrange(i + 1, segs.len() as int);
    assert(segs =~= lo + one + hi);
    lemma_layers_concat(lo + one, hi);
    lemma_layers_concat(lo, one);
    assert(one.drop_last() =~= Seq::<Segment>::empty());
    assert(one.last() == segs[i]);
    assert(layers(Seq::<Segment>::empty()) == Seq::<EntryV>::empty());
    assert(layers(one) =~= segs[i].entries());
}

pub open spec fn segments_wf(segs: Seq<Segment>) -> bool {
    forall|i: int| 0 <= i < segs.len() ==> (#[trigger] segs[i]).wf()
}

/// The entry itself when it holds a value; nothing for a tombstone.
pub open spec fn live(e: Option<EntryV>) -> Option<EntryV> {
    match e {
        Some(x) => if x.value is Some { Some(x) } else { None },
        None => None,
    }
}

/// `c` is a compaction of the stack `segs`: a sorted run without tombstones
/// holding, for each key, the newest entry of the stack when that holds a
/// value.
pub open spec fn is_compaction(segs: Seq<Segment>, c: Segment) -> bool {
    &&& c.wf()
    &&& forall|k: Seq<u8>| #[trigger] lookup(c.entries(), k) == live(lookup(layers(segs), k))
    &&& forall|i: int| 0 <= i < c.entries().len() ==> (#[trigger] c.entries()[i]).value is Some
}

/// Compacting the result of a compaction again, with no write in between,
/// changes no key's entry, and both show what the stack they came from showed.
pub proof fn lemma_compaction_idempotent(segs: Seq<Segment>, c1: Segment, c2: Segment)
    requires
        is_compaction(segs, c1),
        is_compaction(seq![c1], c2),
    ensures
        forall|k: Seq<u8>| #[trigger] lookup(c2.entries(), k) == lookup(c1.entries(), k),
        forall|k: Seq<u8>| #[trigger] visible(c2.entries(), k) == visible(layers(segs), k),
{
    let one = seq![c1];
    assert(one.drop_last() =~= Seq::<Segment>::empty());
    assert(layers(Seq::<Segment>::empty()) == Seq::<EntryV>::empty());
    assert(layers(one) =~= c1.entries());
    assert forall|k: Seq<u8>| #[trigger] lookup(c2.entries(), k) == lookup(c1.entries(), k) by {
        if lookup(c1.entries(), k) is Some {
            lemma_lookup_found(c1.entries(), k);
        }
    }
    assert forall|k: Seq<u8>| #[trigger] visible(c2.entries(), k) == visible(layers(segs), k) by {
        assert(lookup(c2.entries(), k) == lookup(c1.entries(), k));
    }
}

/// Keeps the entries of a sorted run that hold a value, in order.
pub fn drop_tombstones(run: &Vec<Entry>) -> (r: Vec<Entry>)
    requires
        sorted(entries_view(run@)),
    ensures
        sorted(entries_view(r@)),
        forall|k: Seq<u8>| #[trigger] lookup(entries_view(r@), k) == live(lookup(entries_view(run@), k)),
        forall|i: int| 0 <= i < r@.len() ==> (#[trigger] r@[i]).value is Some,
{
    let ghost m = entries_view(run@);
    let mut out: Vec<Entry> = Vec::new();
    let mut j: usize = 0;
    assert(m.subrange(0, 0) =~= Seq::<EntryV>::empty());
    assert(entries_view(out@) =~= Seq::<EntryV>::empty());
    while j < run.len()
        invariant
            m == entries_view(run@),
            sorted(m),
            j <= run@.len(),
            sorted(entries_view(out@)),
            forall|a: int| 0 <= a < out@.len() ==> exists|b: int| 0 <= b < j && #[trigger] entries_view(out@)[a] == m[b],
            forall|k: Seq<u8>| #[trigger] lookup(entries_view(out@), k) == live(lookup(m.subrange(0, j as int), k)),
            forall|i: int| 0 <= i < out@.len() ==> (#[trigger] out@[i]).value is Some,
        decreases run@.len() - j,
    {
        proof { lemma_key_order(); }
        let ghost o = entries_view(out@);
        let ghost e = m[j as int];
        assert(m.subrange(0, j + 1) =~= m.subrange(0, j as int).push(e));
        assert(run@[j as int]@ == e);
        if run[j].value.is_some() {
            out.push(run[j].duplicate());
            proof {
                let o2 = entries_view(out@);
                assert(o2 =~= o.push(e));
                assert forall|a: int, b: int| 0 <= a < b < o2.len() implies key_lt(#[trigger] o2[a].key, #[trigger] o2[b].key) by {
                    if b == o.len() {
                        let c = choose|c: int| 0 <= c < j && #[trigger] entries_view(out@)[a] == m[c];
                        assert(key_lt(m[c].key, m[j as int].key));
                    } else {
                        assert(o2[a] == o[a] && o2[b] == o[b]);
                    }
                }
                assert forall|a: int| 0 <= a < out@.len() implies exists|b: int| 0 <= b < j + 1 && #[trigger] entries_view(out@)[a] == m[b] by {
                    if a < o.len() {
                        assert(o2[a] == o[a]);
                        let c = choose|c: int| 0 <= c < j && #[trigger] o[a] == m[c];
                        assert(o2[a] == m[c]);
                    } else {
                        assert(o2[a] == m[j as int]);
                    }
                }
                assert forall|k: Seq<u8>| #[trigger] lookup(o2, k) == live(lookup(m.subrange(0, j + 1), k)) by {
                    lemma_lookup_push(o, e, k);
                    lemma_lookup_push(m.subrange(0, j as int), e, k);
                }
                assert forall|i: int| 0 <= i < out@.len() implies (#[trigger] out@[i]).value is Some by {
                    assert(o2[i] == out@[i]@);
                }
            }
        } else {
            proof {
                assert forall|k: Seq<u8>| #[trigger] lookup(o, k) == live(lookup(m.subrange(0, j + 1), k)) by {
                    lemma_lookup_push(m.subrange(0, j as int), e, k);
                    if k == e.key {
                        assert forall|a: int| 0 <= a < o.len() implies #[trigger] o[a].key != k by {
                            let c = choose|c: int| 0 <= c < j && #[trigger] entries_view(out@)[a] == m[c];
                            assert(key_lt(m[c].key, m[j as int].key));
                        }
                        lemma_lookup_absent(o, k);
                    }
                }
                assert forall|a: int| 0 <= a < out@.len() implies exists|b: int| 0 <= b < j + 1 && #[trigger] entries_view(out@)[a] == m[b] by {
                    let c = choose|c: int| 0 <= c < j && #[trigger] entries_view(out@)[a] == m[c];
                }
            }
        }
        j = j + 1;
    }
    assert(m.subrange(0, run@.len() as int) =~= m);
    out
}

/// Merges a stack of segments (oldest first) into one segment with the given
/// generation, holding for each key its newest entry unless that is a
/// tombstone.
pub fn compact(segments: &Vec<Segment>, generation: u64) -> (r: Segment)
    requires
        segments_wf(segments@),
    ensures
        is_compaction(segments@, r),
        r.spec_generation() == generation,
{
    let mut merged: Vec<Entry> = Vec::new();
    let mut i: usize = 0;
    assert(segments@.subrange(0, 0) =~= Seq::<Segment>::empty());
    assert(entries_view(merged@) =~= Seq::<EntryV>::empty());
    while i < segments.len()
        invariant
            segments_wf(segments@),
            i <= segments@.len(),
            sorted(entries_view(merged@)),
            forall|k: Seq<u8>| #[trigger] lookup(entries_view(merged@), k)
                == lookup(layers(segments@.subrange(0, i as int)), k),
        decreases segments@.len() - i,
    {
        let ghost lower = layers(segments@.subrange(0, i as int));
        let seg = &segments[i];
        let run = seg.iterate();
        let ghost s = entries_view(run@);
        let mut j: usize = 0;
        assert(lower + s.subrange(0, 0) =~= lower);
        while j < run.len()
            invariant
                s == entries_view(run@),
                j <= run@.len(),
                sorted(entries_view(merged@)),
                forall|k: Seq<u8>| #[trigger] lookup(entries_view(merged@), k)
                    == lookup(lower + s.subrange(0, j as int), k),
            decreases run@.len() - j,
        {
            let ghost before = entries_view(merged@);
            let e = run[j].duplicate();
            assert(e@ == s[j as int]);
            upsert(&mut merged, e);
            proof {
                assert((lower + s.subrange(0, j as int)).push(s[j as int]) =~= lower + s.subrange(0, j + 1));
                assert forall|k: Seq<u8>| #[trigger] lookup(entries_view(merged@), k)
                    == lookup(lower + s.subrange(0, j + 1), k) by {
                    lemma_lookup_push(before, s[j as int], k);
                    lemma_lookup_push(lower + s.subrange(0, j as int), s[j as int], k);
                }
            }
            j = j + 1;
        }
        proof {
            let next = segments@.subrange(0, i + 1);
            assert(next.drop_last() =~= segments@.subrange(0, i as int));
            assert(s.subrange(0, j as int) =~= s);
            assert(layers(next) == lower + s);
        }
        i = i + 1;
    }
    assert(segments@.subrange(0, segments@.len() as int) =~= segments@);
    let kept = drop_tombstones(&merged);
    Segment::build(kept, generation)
}

} // verus!
