//! The visible state of a store, as a map from keys to values, and how
//! mutations change it.
use vstd::prelude::*;
use crate::run::{EntryV, lookup, visible, lemma_lookup_push, lemma_lookup_concat};

verus! {

/// A mutation as plain values: a value to write, or `None` to delete.
pub struct Mutation {
    pub key: Seq<u8>,
    pub value: Option<Seq<u8>>,
}

pub open spec fn apply_mutation(m: Map<Seq<u8>, Seq<u8>>, op: Mutation) -> Map<Seq<u8>, Seq<u8>> {
    match op.value {
        Some(v) => m.insert(op.key, v),
        None => m.remove(op.key),
    }
}

/// The map after applying `ops` in order.
pub open spec fn apply_mutations(m: Map<Seq<u8>, Seq<u8>>, ops: Seq<Mutation>) -> Map<Seq<u8>, Seq<u8>>
    decreases ops.len(),
{
    if ops.len() == 0 {
        m
    } else {
        apply_mutation(apply_mutations(m, ops.drop_last()), ops.last())
    }
}

/// The key-value map that a sequence of entries (oldest first) shows.
pub open spec fn view_of(h: Seq<EntryV>) -> Map<Seq<u8>, Seq<u8>> {
    Map::new(|k: Seq<u8>| visible(h, k) is Some, |k: Seq<u8>| visible(h, k)->0)
}

/// The value a map gives to `k`, if any.
pub open spec fn map_get(m: Map<Seq<u8>, Seq<u8>>, k: Seq<u8>) -> Option<Seq<u8>> {
    if m.contains_key(k) { Some(m[k]) } else { None }
}

pub open spec fn same_lookups(a: Seq<EntryV>, b: Seq<EntryV>) -> bool {
    forall|k: Seq<u8>| #[trigger] lookup(a, k) == lookup(b, k)
}

pub proof fn lemma_map_get_view(h: Seq<EntryV>, k: Seq<u8>)
    ensures
        map_get(view_of(h), k) == visible(h, k),
{
}

pub proof fn lemma_view_push(h: Seq<EntryV>, e: EntryV)
    ensures
        view_of(h.push(e)) == apply_mutation(view_of(h), Mutation { key: e.key, value: e.value }),
{
    assert forall|k: Seq<u8>| #[trigger] lookup(h.push(e), k) == (if e.key == k { Some(e) } else { lookup(h, k) }) by {
        lemma_lookup_push(h, e, k);
    }
    assert(view_of(h.push(e)) =~= apply_mutation(view_of(h), Mutation { key: e.key, value: e.value }));
}

/// Layering the same sequence under two sequences with equal lookups gives
/// equal lookups.
pub proof fn lemma_same_lookups_under(l: Seq<EntryV>, a: Seq<EntryV>, b: Seq<EntryV>)
    requires
        same_lookups(a, b),
    ensures
        same_lookups(l + a, l + b),
        view_of(l + a) == view_of(l + b),
{
    assert forall|k: Seq<u8>| #[trigger] lookup(l + a, k) == lookup(l + b, k) by {
        lemma_lookup_concat(l, a, k);
        lemma_lookup_concat(l, b, k);
    }
    assert(view_of(l + a) =~= view_of(l + b));
}

/// The last mutation of `k` among `ops`, if any.
pub open spec fn last_mutation(ops: Seq<Mutation>, k: Seq<u8>) -> Option<Mutation>
    decreases ops.len(),
{
    if ops.len() == 0 {
        None
    } else if ops.last().key == k {
        Some(ops.last())
    } else {
        last_mutation(ops.drop_last(), k)
    }
}

/// After mutations applied in order (each with a higher sequence number than
/// the one before), a key holds the value of its latest mutation, or nothing
/// when that was a deletion; a key that no mutation touches keeps its value.
pub proof fn lemma_latest_mutation_wins(m: Map<Seq<u8>, Seq<u8>>, ops: Seq<Mutation>, k: Seq<u8>)
    ensures
        map_get(apply_mutations(m, ops), k) == match last_mutation(ops, k) {
            Some(op) => op.value,
            None => map_get(m, k),
        },
    decreases ops.len(),
{
    if ops.len() > 0 {
        lemma_latest_mutation_wins(m, ops.drop_last(), k);
    }
}

/// Applying one batch after another is applying their concatenation.
pub proof fn lemma_apply_mutations_concat(m: Map<Seq<u8>, Seq<u8>>, a: Seq<Mutation>, b: Seq<Mutation>)
    ensures
        apply_mutations(apply_mutations(m, a), b) == apply_mutations(m, a + b),
    decreases b.len(),
{
    if b.len() == 0 {
        assert(a + b =~= a);
    } else {
        assert((a + b).drop_last() =~= a + b.drop_last());
        assert((a + b).last() == b.last());
        lemma_apply_mutations_concat(m, a, b.drop_last());
    }
}

/// An empty map holds no key, and deleting a key that is absent leaves the
/// map as it was, the key still absent.
pub proof fn lemma_absent_boundaries(m: Map<Seq<u8>, Seq<u8>>, k: Seq<u8>)
    requires
        !m.contains_key(k),
    ensures
        map_get(Map::<Seq<u8>, Seq<u8>>::empty(), k) is None,
        apply_mutations(m, seq![Mutation { key: k, value: None }]) == m,
        map_get(apply_mutations(m, seq![Mutation { key: k, value: None }]), k) is None,
{
    let ops = seq![Mutation { key: k, value: None }];
    assert(ops.drop_last() =~= Seq::<Mutation>::empty());
    assert(apply_mutations(m, ops.drop_last()) == m);
    assert(ops.last() == Mutation { key: k, value: None });
    assert(m.remove(k) =~= m);
    assert(apply_mutations(m, ops) == apply_mutation(m, Mutation { key: k, value: None }));
}

} // verus!
