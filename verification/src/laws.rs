use vstd::prelude::*;
use crate::codec::codec_ok;
use crate::database::{Backend, Database};
use crate::index::bucket_lookup;
use crate::query::{cond_matches, query_matches, query_results, CondView};
use crate::storage::{key_index, lookup_entry, Entries, Storage};
use crate::types::ValueView;

verus! {

// ---------------------------------------------------------------------------
// The laws of the store: properties that hold of every database the
// invariant admits, stated once and proved from the contracts of the
// operations that maintain them.
// ---------------------------------------------------------------------------

/// Index consistency: after any sequence of insertions and removals — that
/// is, in any database satisfying the invariant they all preserve — every
/// live (key, value) has its key listed under that value in the index, and a
/// key absent from storage is listed in no bucket at all.
pub proof fn lemma_index_consistency(db: Database, k: Seq<char>)
    requires
        db.inv(),
    ensures
        match lookup_entry(db.entries(), k) {
            Some(w) => bucket_lookup(db.buckets(), w.value) matches Some(ks) && ks.contains(k),
            None => forall|v: ValueView|
                match #[trigger] bucket_lookup(db.buckets(), v) {
                    Some(ks) => !ks.contains(k),
                    None => true,
                },
        },
{
    let es = db.entries();
    let bs = db.buckets();
    db.storage.lemma_wf_unique();
    match lookup_entry(es, k) {
        Some(w) => {
            let j = key_index(es, k);
            crate::storage::lemma_lookup_at(es, j);
            assert(es[j].0 == k && es[j].1 == w);
        },
        None => {
            assert forall|v: ValueView| match #[trigger] bucket_lookup(bs, v) {
                Some(ks) => !ks.contains(k),
                None => true,
            } by {
                match bucket_lookup(bs, v) {
                    Some(ks) => {
                        if ks.contains(k) {
                            let l = choose|l: int| 0 <= l < ks.len() && ks[l] == k;
                            assert(match lookup_entry(es, ks[l]) {
                                Some(w0) => w0.value == v,
                                None => false,
                            });
                        }
                    },
                    None => {},
                }
            }
        },
    }
}

/// Overwrite correctness: inserting (k, v1) and then (k, v2) leaves the
/// database with k stored under v2 — that is the insert contract — and this
/// law finishes the story: in any such database, v2's bucket lists k and
/// v1's bucket, if it still exists, does not.
pub proof fn lemma_overwrite(db: Database, k: Seq<char>, v1: ValueView, v2: ValueView)
    requires
        db.inv(),
        v1 != v2,
        lookup_entry(db.entries(), k) matches Some(w) && w.value == v2,
    ensures
        bucket_lookup(db.buckets(), v2) matches Some(ks) && ks.contains(k),
        match bucket_lookup(db.buckets(), v1) {
            Some(ks) => !ks.contains(k),
            None => true,
        },
{
    let es = db.entries();
    let bs = db.buckets();
    db.storage.lemma_wf_unique();
    lemma_index_consistency(db, k);
    match bucket_lookup(bs, v1) {
        Some(ks) => {
            if ks.contains(k) {
                let l = choose|l: int| 0 <= l < ks.len() && ks[l] == k;
                assert(match lookup_entry(es, ks[l]) {
                    Some(w0) => w0.value == v1,
                    None => false,
                });
            }
        },
        None => {},
    }
}

/// Snapshot idempotence: the state a database exports is exactly what a
/// load validates, so importing an exported state back under the same
/// backend choice succeeds — and the import contract then hands back a
/// database with the very same entries and buckets.
pub proof fn lemma_snapshot_idempotent(db: Database)
    requires
        db.inv(),
    ensures
        crate::snapshot::import_ok(db.kind(), db.entries(), db.buckets()),
{
    db.storage.lemma_wf_unique();
    let es = db.entries();
    assert forall|i: int| 0 <= i < es.len() implies codec_ok((#[trigger] es[i]).1) by {
        match db.storage {
            Backend::BTree(b) => {
                assert(crate::storage::entry_wf(b.slots@[i]));
                assert(es[i] == (b.slots@[i].key@, b.slots@[i].wrapped@));
            },
            Backend::HashMap(h) => {
                assert(crate::storage::entry_wf(h.slots@[i]));
                assert(es[i] == (h.slots@[i].key@, h.slots@[i].wrapped@));
            },
        }
    }
}

/// Query conjunction: a query whose conditions name two different keys
/// returns nothing, on every dataset, by construction — no single record can
/// carry both keys.
pub proof fn lemma_distinct_keys_empty(cs: Seq<CondView>, es: Entries, i: int, j: int)
    requires
        0 <= i < cs.len(),
        0 <= j < cs.len(),
        crate::query::cond_key(cs[i]) != crate::query::cond_key(cs[j]),
    ensures
        query_results(cs, es) == Seq::<ValueView>::empty(),
    decreases es.len(),
{
    if es.len() == 0 {
        assert(query_results(cs, es) =~= Seq::<ValueView>::empty());
    } else {
        assert(!query_matches(cs, es[0].0, es[0].1.value)) by {
            if query_matches(cs, es[0].0, es[0].1.value) {
                assert(cond_matches(cs[i], es[0].0, es[0].1.value));
                assert(cond_matches(cs[j], es[0].0, es[0].1.value));
                crate::query::lemma_cond_matches_key(cs[i], es[0].0, es[0].1.value);
                crate::query::lemma_cond_matches_key(cs[j], es[0].0, es[0].1.value);
            }
        }
        lemma_distinct_keys_empty(cs, es.drop_first(), i, j);
    }
}

} // verus!
