use vstd::prelude::*;
use crate::codec::{codec_ok, enc_wrapped};
use crate::error::DatabaseError;
use crate::index::{bucket_lookup, Buckets, Index};
use crate::query::{query_results, Query};
use crate::storage::{lookup_entry, Entries, Storage};
use crate::types::{current_time_millis, expired, expiry_at, Value, ValueView, ValueWithTTL, WrappedView};
use crate::btree::BTreeStorage;
use crate::hashmap::HashMapStorage;

verus! {

// ---------------------------------------------------------------------------
// The database: one storage backend and one secondary index behind a single
// owner. Every mutation touches both in one call, so no observer ever sees
// storage and index diverge; that consistency is the database invariant.
// ---------------------------------------------------------------------------

/// The closed set of backend choices.
pub enum StorageKind {
    BTree,
    HashMap,
}

/// The chosen backend.
pub enum Backend {
    BTree(BTreeStorage),
    HashMap(HashMapStorage),
}

impl Storage for Backend {
    open spec fn entries(&self) -> Entries {
        match self {
            Backend::BTree(b) => b.entries(),
            Backend::HashMap(h) => h.entries(),
        }
    }

    open spec fn wf(&self) -> bool {
        match self {
            Backend::BTree(b) => b.wf(),
            Backend::HashMap(h) => h.wf(),
        }
    }

    proof fn lemma_wf_unique(&self) {
        match self {
            Backend::BTree(b) => b.lemma_wf_unique(),
            Backend::HashMap(h) => h.lemma_wf_unique(),
        }
    }

    fn insert(&mut self, key: &str, value: ValueWithTTL) {
        match self {
            Backend::BTree(b) => b.insert(key, value),
            Backend::HashMap(h) => h.insert(key, value),
        }
    }

    fn get(&self, key: &str) -> (r: Option<ValueWithTTL>) {
        match self {
            Backend::BTree(b) => b.get(key),
            Backend::HashMap(h) => h.get(key),
        }
    }

    fn remove(&mut self, key: &str) -> (r: Option<ValueWithTTL>) {
        match self {
            Backend::BTree(b) => b.remove(key),
            Backend::HashMap(h) => h.remove(key),
        }
    }

    fn iter(&self) -> (r: Vec<(String, ValueWithTTL)>) {
        match self {
            Backend::BTree(b) => b.iter(),
            Backend::HashMap(h) => h.iter(),
        }
    }

    fn remove_expired(&mut self, now: u64) {
        match self {
            Backend::BTree(b) => b.remove_expired(now),
            Backend::HashMap(h) => h.remove_expired(now),
        }
    }
}

/// The storage/index consistency invariant: every live (key, value) has its
/// key in the value's bucket; every key of every bucket is live with exactly
/// that value; and no bucket lists a key twice. Together with unique storage
/// keys this puts each live key in exactly one bucket, once, and dead keys in
/// none.
pub open spec fn index_consistent(es: Entries, bs: Buckets) -> bool {
    (forall|i: int|
        0 <= i < es.len() ==> match bucket_lookup(bs, #[trigger] es[i].1.value) {
            Some(ks) => ks.contains(es[i].0),
            None => false,
        }) && (forall|v: ValueView|
        match #[trigger] bucket_lookup(bs, v) {
            Some(ks) => forall|l: int|
                0 <= l < ks.len() ==> match lookup_entry(es, #[trigger] ks[l]) {
                    Some(w) => w.value == v,
                    None => false,
                },
            None => true,
        }) && (forall|v: ValueView|
        match #[trigger] bucket_lookup(bs, v) {
            Some(ks) => forall|l1: int, l2: int| 0 <= l1 < l2 < ks.len() ==> ks[l1] != ks[l2],
            None => true,
        })
}

/// Whether a value fits the codec whatever expiration instant it is wrapped
/// with.
pub open spec fn value_codec_ok(v: ValueView) -> bool {
    codec_ok(WrappedView { value: v, expires_at: Some(0) })
}

/// A value that fits the codec with one expiration instant fits it with any.
pub proof fn lemma_value_codec_ok(v: ValueView, e: Option<u64>)
    requires
        value_codec_ok(v),
    ensures
        codec_ok(WrappedView { value: v, expires_at: e }),
{
    let w0 = WrappedView { value: v, expires_at: Some(0) };
    let w = WrappedView { value: v, expires_at: e };
    assert(enc_wrapped(w).len() <= enc_wrapped(w0).len());
}

/// What an insert of (key, value) does to the index buckets, given what was
/// stored under the key before: the old value's bucket is struck of the key
/// (and deleted if that empties it), then the new value's bucket gains the
/// key at its end (created if absent), and no other bucket moves.
pub open spec fn insert_bucket_delta(
    bs: Buckets,
    bs2: Buckets,
    key: Seq<char>,
    value: ValueView,
    prior: Option<WrappedView>,
) -> bool {
    match prior {
        Some(ow) => bucket_lookup(bs, ow.value) matches Some(ks0) && (if ow.value == value {
            bucket_lookup(bs2, value) == Some(crate::index::remove_key(ks0, key).push(key)) && (
            forall|v: ValueView|
                v != value ==> #[trigger] bucket_lookup(bs2, v) == bucket_lookup(bs, v))
        } else {
            bucket_lookup(bs2, ow.value) == (if crate::index::remove_key(ks0, key).len() == 0 {
                None
            } else {
                Some(crate::index::remove_key(ks0, key))
            }) && bucket_lookup(bs2, value) == Some(
                match bucket_lookup(bs, value) {
                    Some(ks) => ks.push(key),
                    None => seq![key],
                },
            ) && (forall|v: ValueView|
                v != value && v != ow.value ==> #[trigger] bucket_lookup(bs2, v) == bucket_lookup(
                    bs,
                    v,
                ))
        }),
        None => bucket_lookup(bs2, value) == Some(
            match bucket_lookup(bs, value) {
                Some(ks) => ks.push(key),
                None => seq![key],
            },
        ) && (forall|v: ValueView|
            v != value ==> #[trigger] bucket_lookup(bs2, v) == bucket_lookup(bs, v)),
    }
}

/// The database: a chosen backend and the secondary index, mutated together.
pub struct Database {
    pub storage: Backend,
    pub index: Index,
}

impl Database {
    /// The live entries, in the backend's iteration order.
    pub open spec fn entries(&self) -> Entries {
        self.storage.entries()
    }

    /// The index buckets.
    pub open spec fn buckets(&self) -> Buckets {
        self.index.buckets()
    }

    /// Which backend this database runs on.
    pub open spec fn kind(&self) -> StorageKind {
        match self.storage {
            Backend::BTree(_) => StorageKind::BTree,
            Backend::HashMap(_) => StorageKind::HashMap,
        }
    }

    /// The database invariant: both halves well formed and consistent with
    /// each other.
    pub open spec fn inv(&self) -> bool {
        self.storage.wf() && self.index.wf() && index_consistent(self.entries(), self.buckets())
    }

    /// An empty database over the chosen backend. The backend set is closed:
    /// an unsupported choice cannot be expressed, so construction cannot
    /// fail.
    pub fn new(kind: StorageKind) -> (r: Database)
        ensures
            r.inv(),
            r.kind() == kind,
            r.entries().len() == 0,
            r.buckets().len() == 0,
    {
        let storage = match kind {
            StorageKind::BTree => Backend::BTree(BTreeStorage::new()),
            StorageKind::HashMap => Backend::HashMap(HashMapStorage::new()),
        };
        Database { storage, index: Index::new() }
    }

    /// Inserts a value under a key as of the instant `now`, overwriting any
    /// prior entry and keeping the index exact: the old value's bucket loses
    /// the key before the new value's bucket gains it.
    pub fn insert_at(&mut self, key: &str, value: Value, ttl: Option<u64>, now: u64)
        requires
            old(self).inv(),
            value_codec_ok(value@),
        ensures
            final(self).inv(),
            lookup_entry(final(self).entries(), key@) == Some(
                WrappedView {
                    value: value@,
                    expires_at: match ttl {
                        Some(t) => Some(expiry_at(now, t)),
                        None => None,
                    },
                },
            ),
            forall|k: Seq<char>|
                k != key@ ==> #[trigger] lookup_entry(final(self).entries(), k) == lookup_entry(
                    old(self).entries(),
                    k,
                ),
            insert_bucket_delta(old(self).buckets(), final(self).buckets(), key@, value@, lookup_entry(old(self).entries(), key@)),
    {
        let ghost es = self.entries();
        let ghost bs = self.buckets();
        let wrapped = ValueWithTTL::new_at(value, ttl, now);
        proof {
            lemma_value_codec_ok(wrapped@.value, wrapped@.expires_at);
            self.storage.lemma_wf_unique();
        }
        // overwriting must first strike the old value's index entry, or a
        // stale bucket entry would survive
        match self.storage.get(key) {
            Some(old_w) => {
                self.index.remove(key, &old_w.value);
            },
            None => {},
        }
        let ghost bs1 = self.buckets();
        self.storage.insert(key, wrapped.clone());
        self.index.insert(key, &wrapped.value);
        proof {
            self.storage.lemma_wf_unique();
            lemma_insert_consistent(es, bs, bs1, self.entries(), self.buckets(), key@, wrapped@);
            let bs2 = self.buckets();
            match lookup_entry(es, key@) {
                Some(ow) => {
                    let j = crate::storage::key_index(es, key@);
                    crate::storage::lemma_lookup_at(es, j);
                    assert(match bucket_lookup(bs, es[j].1.value) {
                        Some(ks) => ks.contains(es[j].0),
                        None => false,
                    });
                    let ks0 = bucket_lookup(bs, ow.value)->0;
                    if ow.value == value@ {
                        if crate::index::remove_key(ks0, key@).len() == 0 {
                            assert(bucket_lookup(bs1, value@) is None);
                            assert(bucket_lookup(bs2, value@) == Some(seq![key@]));
                            assert(seq![key@] =~= crate::index::remove_key(ks0, key@).push(key@));
                        }
                    } else {
                        assert(bucket_lookup(bs1, value@) == bucket_lookup(bs, value@));
                    }
                },
                None => {},
            }
        }
    }

    /// Inserts against the wall clock: the expiration instant, if any, is
    /// the current time plus the time-to-live in milliseconds.
    pub fn insert(&mut self, key: &str, value: Value, ttl: Option<u64>)
        requires
            old(self).inv(),
            value_codec_ok(value@),
        ensures
            final(self).inv(),
            lookup_entry(final(self).entries(), key@) matches Some(w) && w.value == value@ && (
            w.expires_at is Some <==> ttl is Some),
            forall|k: Seq<char>|
                k != key@ ==> #[trigger] lookup_entry(final(self).entries(), k) == lookup_entry(
                    old(self).entries(),
                    k,
                ),
            insert_bucket_delta(old(self).buckets(), final(self).buckets(), key@, value@, lookup_entry(old(self).entries(), key@)),
    {
        let now = current_time_millis();
        self.insert_at(key, value, ttl, now);
    }

    /// The raw value under the key, with no expiration filtering: reading
    /// never sweeps, and a caller may observe an expired-but-unswept value.
    pub fn get(&self, key: &str) -> (r: Option<Value>)
        requires
            self.inv(),
        ensures
            match lookup_entry(self.entries(), key@) {
                Some(w) => r matches Some(v) && v@ == w.value,
                None => r is None,
            },
    {
        match self.storage.get(key) {
            Some(w) => Some(w.value),
            None => None,
        }
    }

    /// Removes the key from storage and strikes it from its value's bucket.
    /// Removing an absent key is a no-op: storage and index are left exactly
    /// as they were.
    pub fn remove(&mut self, key: &str)
        requires
            old(self).inv(),
        ensures
            final(self).inv(),
            lookup_entry(final(self).entries(), key@) is None,
            forall|k: Seq<char>|
                k != key@ ==> #[trigger] lookup_entry(final(self).entries(), k) == lookup_entry(
                    old(self).entries(),
                    k,
                ),
            match lookup_entry(old(self).entries(), key@) {
                Some(w) => bucket_lookup(old(self).buckets(), w.value) matches Some(ks)
                    && bucket_lookup(final(self).buckets(), w.value) == (if crate::index::remove_key(
                    ks,
                    key@,
                ).len() == 0 {
                    None
                } else {
                    Some(crate::index::remove_key(ks, key@))
                }) && (forall|v: ValueView|
                    v != w.value ==> #[trigger] bucket_lookup(final(self).buckets(), v)
                        == bucket_lookup(old(self).buckets(), v)),
                None => final(self).entries() == old(self).entries() && final(self).buckets()
                    == old(self).buckets(),
            },
    {
        let ghost es = self.entries();
        let ghost bs = self.buckets();
        proof {
            self.storage.lemma_wf_unique();
        }
        match self.storage.remove(key) {
            Some(w) => {
                proof {
                    let j = crate::storage::key_index(es, key@);
                    crate::storage::lemma_lookup_at(es, j);
                }
                self.index.remove(key, &w.value);
                proof {
                    self.storage.lemma_wf_unique();
                    lemma_remove_consistent(es, bs, self.entries(), self.buckets(), key@, w@);
                }
            },
            None => {},
        }
    }

    /// Sweeps out every entry expired at `now`, from storage and index both.
    /// Entries without an expiration instant are never removed, however much
    /// time has passed.
    /// Removes every listed key, in order.
    fn remove_all(&mut self, doomed: &Vec<String>)
        requires
            old(self).inv(),
        ensures
            final(self).inv(),
            forall|k: Seq<char>|
                #[trigger] lookup_entry(final(self).entries(), k) == if doomed.deep_view().contains(
                    k,
                ) {
                    None
                } else {
                    lookup_entry(old(self).entries(), k)
                },
    {
        let ghost es0 = self.entries();
        let ghost dk = doomed.deep_view();
        let m = doomed.len();
        let mut l: usize = 0;
        while l < m
            invariant
                l <= m,
                m == doomed@.len(),
                dk == doomed.deep_view(),
                self.inv(),
                forall|k: Seq<char>|
                    #[trigger] lookup_entry(self.entries(), k) == if dk.take(l as int).contains(k) {
                        None
                    } else {
                        lookup_entry(es0, k)
                    },
            decreases m - l,
        {
            let ghost pre = self.entries();
            self.remove(doomed[l].as_str());
            proof {
                assert(dk[l as int] == doomed@[l as int]@);
                assert forall|k: Seq<char>| #[trigger] lookup_entry(self.entries(), k) == (
                if dk.take(l + 1).contains(k) {
                    None
                } else {
                    lookup_entry(es0, k)
                }) by {
                    assert(dk.take(l + 1) =~= dk.take(l as int).push(dk[l as int]));
                    if k == dk[l as int] {
                        assert(dk.take(l + 1)[l as int] == k);
                    } else {
                        assert(lookup_entry(self.entries(), k) == lookup_entry(pre, k));
                        if dk.take(l as int).contains(k) {
                            let l2 = choose|l2: int| 0 <= l2 < l && dk.take(l as int)[l2] == k;
                            assert(dk.take(l + 1)[l2] == k);
                        } else {
                            if dk.take(l + 1).contains(k) {
                                let l2 = choose|l2: int|
                                    0 <= l2 < l + 1 && #[trigger] dk.take(l + 1)[l2] == k;
                                if l2 < l {
                                    assert(dk.take(l as int)[l2] == k);
                                    assert(false);
                                } else {
                                    assert(false);
                                }
                            }
                        }
                    }
                }
            }
            l = l + 1;
        }
        proof {
            assert(dk.take(m as int) =~= dk);
        }
    }

    /// Sweeps out every entry expired at `now`, from storage and index both.
    /// Entries without an expiration instant are never removed, however much
    /// time has passed.
    pub fn remove_expired_at(&mut self, now: u64)
        requires
            old(self).inv(),
        ensures
            final(self).inv(),
            forall|k: Seq<char>|
                #[trigger] lookup_entry(final(self).entries(), k) == (match lookup_entry(
                    old(self).entries(),
                    k,
                ) {
                    Some(w) => if expired(w, now) {
                        None
                    } else {
                        Some(w)
                    },
                    None => None,
                }),
    {
        let ghost es0 = self.entries();
        proof {
            self.storage.lemma_wf_unique();
        }
        let records = self.storage.iter();
        proof {
            assert(records@.map(|i: int, p: (String, ValueWithTTL)| (p.0@, p.1@)) == es0);
        }
        let doomed = collect_expired(&records, now);
        let ghost dk = doomed.deep_view();
        self.remove_all(&doomed);
        proof {
            lemma_dead_membership(es0, now);
            assert forall|k: Seq<char>| #[trigger] lookup_entry(self.entries(), k) == (
            match lookup_entry(es0, k) {
                Some(w) => if expired(w, now) {
                    None
                } else {
                    Some(w)
                },
                None => None,
            }) by {
                match lookup_entry(es0, k) {
                    Some(w) => {
                        let j = crate::storage::key_index(es0, k);
                        crate::storage::lemma_lookup_at(es0, j);
                        if expired(w, now) {
                            let i0 = choose|i: int|
                                #![trigger dead(es0, now)[i]]
                                0 <= i < dead(es0, now).len() && dead(es0, now)[i] == es0[j];
                            assert(dk[i0] == k);
                            assert(dk.contains(k));
                        } else {
                            if dk.contains(k) {
                                let l2 = choose|l2: int| 0 <= l2 < dk.len() && dk[l2] == k;
                                assert(dead(es0, now)[l2].0 == k);
                                let j2 = choose|j2: int|
                                    #![trigger es0[j2]]
                                    0 <= j2 < es0.len() && es0[j2] == dead(es0, now)[l2];
                                crate::storage::lemma_lookup_at(es0, j2);
                                assert(false);
                            }
                        }
                    },
                    None => {
                        if dk.contains(k) {
                            let l2 = choose|l2: int| 0 <= l2 < dk.len() && dk[l2] == k;
                            assert(dead(es0, now)[l2].0 == k);
                            let j2 = choose|j2: int|
                                #![trigger es0[j2]]
                                0 <= j2 < es0.len() && es0[j2] == dead(es0, now)[l2];
                            crate::storage::lemma_lookup_at(es0, j2);
                            assert(false);
                        }
                    },
                }
            }
        }
    }

    /// Sweeps against the wall clock.
    pub fn remove_expired(&mut self)
        requires
            old(self).inv(),
        ensures
            final(self).inv(),
            // whatever the clock read, entries without an expiration instant
            // survive, and no entry changes its value
            forall|k: Seq<char>|
                #[trigger] lookup_entry(final(self).entries(), k) == lookup_entry(
                    old(self).entries(),
                    k,
                ) || lookup_entry(final(self).entries(), k) is None,
            forall|k: Seq<char>|
                (match lookup_entry(old(self).entries(), k) {
                    Some(w) => w.expires_at is None,
                    None => false,
                }) ==> #[trigger] lookup_entry(final(self).entries(), k) == lookup_entry(
                    old(self).entries(),
                    k,
                ),
    {
        let now = current_time_millis();
        self.remove_expired_at(now);
    }

    /// Hands the database to an exclusive transaction. Only one transaction
    /// can exist at a time, and no direct call can interleave with it: the
    /// transaction owns the database until it is closed.
    pub fn begin_transaction(self) -> (t: Transaction)
        ensures
            t.db == self,
            !t.committed,
    {
        Transaction { db: self, committed: false }
    }

    /// Runs a query over the current entries, in the backend's iteration
    /// order.
    pub fn execute(&self, query: &Query) -> (r: Vec<Value>)
        requires
            self.inv(),
        ensures
            r.deep_view() == query_results(query@, self.entries()),
    {
        query.execute(&self.storage)
    }
}

/// The entries expired at `now`, in entry order.
pub open spec fn dead(es: Entries, now: u64) -> Entries
    decreases es.len(),
{
    if es.len() == 0 {
        Seq::empty()
    } else if expired(es[0].1, now) {
        seq![es[0]] + dead(es.drop_first(), now)
    } else {
        dead(es.drop_first(), now)
    }
}

/// The keys of the entries expired at `now`, in entry order.
pub open spec fn dead_keys(es: Entries, now: u64) -> Seq<Seq<char>> {
    dead(es, now).map(|i: int, p: (Seq<char>, WrappedView)| p.0)
}

/// Extending the entries extends the dead entries by the new one when it is
/// expired.
proof fn lemma_dead_push(es: Entries, p: (Seq<char>, WrappedView), now: u64)
    ensures
        dead(es.push(p), now) == if expired(p.1, now) {
            dead(es, now).push(p)
        } else {
            dead(es, now)
        },
    decreases es.len(),
{
    if es.len() == 0 {
        assert(es.push(p)[0] == p);
        assert(es.push(p).drop_first() =~= Seq::empty());
        assert(dead(Seq::empty(), now) =~= Seq::<(Seq<char>, WrappedView)>::empty());
        if expired(p.1, now) {
            assert(dead(es.push(p), now) =~= dead(es, now).push(p));
        } else {
            assert(dead(es.push(p), now) =~= dead(es, now));
        }
    } else {
        lemma_dead_push(es.drop_first(), p, now);
        assert(es.push(p).drop_first() =~= es.drop_first().push(p));
        assert(es.push(p)[0] == es[0]);
        if expired(es[0].1, now) {
            if expired(p.1, now) {
                assert(dead(es.push(p), now) =~= dead(es, now).push(p));
            } else {
                assert(dead(es.push(p), now) =~= dead(es, now));
            }
        }
    }
}

/// The dead entries are exactly the expired entries, both ways.
proof fn lemma_dead_membership(es: Entries, now: u64)
    ensures
        forall|i: int| #![trigger dead(es, now)[i]]
            0 <= i < dead(es, now).len() ==> expired(dead(es, now)[i].1, now) && (exists|j: int|
                #![trigger es[j]]
                0 <= j < es.len() && es[j] == dead(es, now)[i]),
        forall|j: int| #![trigger es[j]]
            0 <= j < es.len() && expired(es[j].1, now) ==> (exists|i: int|
                #![trigger dead(es, now)[i]]
                0 <= i < dead(es, now).len() && dead(es, now)[i] == es[j]),
    decreases es.len(),
{
    if es.len() == 0 {
    } else {
        let rest = es.drop_first();
        lemma_dead_membership(rest, now);
        let dd = dead(es, now);
        let off: int = if expired(es[0].1, now) {
            1
        } else {
            0
        };
        assert forall|i: int| 0 <= i < dd.len() implies expired(#[trigger] dd[i].1, now) && (
        exists|j: int| #![trigger es[j]] 0 <= j < es.len() && es[j] == dd[i]) by {
            if off == 1 && i == 0 {
                assert(es[0] == dd[0]);
            } else {
                assert(dd[i] == dead(rest, now)[i - off]);
                let j0 = choose|j: int|
                    #![trigger rest[j]]
                    0 <= j < rest.len() && rest[j] == dead(rest, now)[i - off];
                assert(es[j0 + 1] == dd[i]);
            }
        }
        assert forall|j: int| 0 <= j < es.len() && expired(#[trigger] es[j].1, now) implies (
        exists|i: int| #![trigger dd[i]] 0 <= i < dd.len() && dd[i] == es[j]) by {
            if j == 0 {
                assert(dd[0] == es[0]);
            } else {
                assert(rest[j - 1] == es[j]);
                let i0 = choose|i: int|
                    #![trigger dead(rest, now)[i]]
                    0 <= i < dead(rest, now).len() && dead(rest, now)[i] == rest[j - 1];
                assert(dd[i0 + off] == es[j]);
            }
        }
    }
}

/// The keys of the records expired at `now`, in record order.
fn collect_expired(records: &Vec<(String, ValueWithTTL)>, now: u64) -> (r: Vec<String>)
    ensures
        r.deep_view() == dead_keys(
            records@.map(|i: int, p: (String, ValueWithTTL)| (p.0@, p.1@)),
            now,
        ),
{
    let ghost rv = records@.map(|i: int, p: (String, ValueWithTTL)| (p.0@, p.1@));
    let n = records.len();
    let mut doomed: Vec<String> = Vec::new();
    let mut i: usize = 0;
    proof {
        assert(rv.take(0) =~= Seq::empty());
        assert(doomed.deep_view() =~~= dead_keys(rv.take(0), now));
    }
    while i < n
        invariant
            i <= n,
            n == records@.len(),
            rv == records@.map(|i: int, p: (String, ValueWithTTL)| (p.0@, p.1@)),
            doomed.deep_view() == dead_keys(rv.take(i as int), now),
        decreases n - i,
    {
        proof {
            assert(rv[i as int] == (records@[i as int].0@, records@[i as int].1@));
            lemma_dead_push(rv.take(i as int), rv[i as int], now);
            assert(rv.take(i + 1) =~= rv.take(i as int).push(rv[i as int]));
        }
        if records[i].1.is_expired_at(now) {
            let kc = records[i].0.clone();
            doomed.push(kc);
            proof {
                assert(dead(rv.take(i + 1), now) == dead(rv.take(i as int), now).push(
                    rv[i as int],
                ));
                assert(dead_keys(rv.take(i + 1), now) =~~= dead_keys(rv.take(i as int), now).push(
                    rv[i as int].0,
                ));
                assert(doomed.deep_view() =~~= dead_keys(rv.take(i + 1), now));
            }
        } else {
            proof {
                assert(dead(rv.take(i + 1), now) == dead(rv.take(i as int), now));
                assert(doomed.deep_view() =~~= dead_keys(rv.take(i + 1), now));
            }
        }
        i = i + 1;
    }
    proof {
        assert(rv.take(n as int) =~= rv);
    }
    doomed
}

// ---------------------------------------------------------------------------
// Transactions. A transaction owns the database for its whole lifetime, so
// ordinary calls and an open transaction cannot interleave. The scope-exit
// rule is an explicit, required close: whoever ends the transaction without
// having committed gets the automatic rollback, exactly once — `close`
// consumes the transaction, so it cannot run twice.
// ---------------------------------------------------------------------------

/// A scoped batch of operations against one database.
pub struct Transaction {
    pub db: Database,
    pub committed: bool,
}

impl Transaction {
    /// Delegates an insert to the bound database. No operation is permitted
    /// once the transaction has committed.
    pub fn insert(&mut self, key: &str, value: Value, ttl: Option<u64>)
        requires
            old(self).db.inv(),
            !old(self).committed,
            value_codec_ok(value@),
        ensures
            final(self).db.inv(),
            !final(self).committed,
            lookup_entry(final(self).db.entries(), key@) matches Some(w) && w.value == value@ && (
            w.expires_at is Some <==> ttl is Some),
            forall|k: Seq<char>|
                k != key@ ==> #[trigger] lookup_entry(final(self).db.entries(), k) == lookup_entry(
                    old(self).db.entries(),
                    k,
                ),
    {
        self.db.insert(key, value, ttl);
    }

    /// Delegates a removal to the bound database.
    pub fn remove(&mut self, key: &str)
        requires
            old(self).db.inv(),
            !old(self).committed,
        ensures
            final(self).db.inv(),
            !final(self).committed,
            lookup_entry(final(self).db.entries(), key@) is None,
            forall|k: Seq<char>|
                k != key@ ==> #[trigger] lookup_entry(final(self).db.entries(), k) == lookup_entry(
                    old(self).db.entries(),
                    k,
                ),
    {
        self.db.remove(key);
    }

    /// Marks the transaction committed; the close that follows will then not
    /// roll back. Committing twice is not permitted.
    pub fn commit(&mut self) -> (r: Result<(), DatabaseError>)
        requires
            !old(self).committed,
        ensures
            final(self).committed,
            final(self).db == old(self).db,
            r is Ok,
    {
        self.committed = true;
        Ok(())
    }

    /// The explicit rollback hook. The database keeps no undo log, so this
    /// reverses nothing: it is a documented no-op that consumes the
    /// transaction and hands the database back.
    pub fn rollback(self) -> (r: (Database, Result<(), DatabaseError>))
        ensures
            r.0 == self.db,
            r.1 is Ok,
    {
        (self.db, Ok(()))
    }

    /// Ends the transaction's scope and hands the database back, reporting
    /// whether the automatic rollback ran: it runs exactly when `commit` was
    /// never called, and exactly once, since the transaction is consumed.
    pub fn close(self) -> (r: (Database, bool))
        ensures
            r.0 == self.db,
            r.1 == !self.committed,
    {
        if !self.committed {
            let (db, _dropped) = self.rollback();
            (db, true)
        } else {
            (self.db, false)
        }
    }
}

/// Striking `key` from `bs` (the bucket of `old_value` when the key was
/// stored, nothing otherwise), storing (key, w), and appending `key` to
/// `w.value`'s bucket together preserve consistency.
proof fn lemma_insert_consistent(
    es: Entries,
    bs: Buckets,
    bs1: Buckets,
    es2: Entries,
    bs2: Buckets,
    key: Seq<char>,
    w: WrappedView,
)
    requires
        crate::storage::keys_unique(es),
        crate::storage::keys_unique(es2),
        index_consistent(es, bs),
        // bs1 is bs with key struck from the old value's bucket, if any
        match lookup_entry(es, key) {
            Some(ow) => bucket_lookup(bs1, ow.value) == (match bucket_lookup(bs, ow.value) {
                Some(ks) => if crate::index::remove_key(ks, key).len() == 0 {
                    None
                } else {
                    Some(crate::index::remove_key(ks, key))
                },
                None => None,
            }) && (forall|v: ValueView|
                v != ow.value ==> #[trigger] bucket_lookup(bs1, v) == bucket_lookup(bs, v)),
            None => bs1 == bs,
        },
        // es2 is es with (key, w) stored
        lookup_entry(es2, key) == Some(w),
        forall|k: Seq<char>|
            k != key ==> #[trigger] lookup_entry(es2, k) == lookup_entry(es, k),
        // bs2 is bs1 with key appended to w.value's bucket
        bucket_lookup(bs2, w.value) == Some(
            match bucket_lookup(bs1, w.value) {
                Some(ks) => ks.push(key),
                None => seq![key],
            },
        ),
        forall|v: ValueView|
            v != w.value ==> #[trigger] bucket_lookup(bs2, v) == bucket_lookup(bs1, v),
    ensures
        index_consistent(es2, bs2),
{
    let old_lookup = lookup_entry(es, key);
    // after the strike, key sits in no bucket of bs1
    assert forall|v: ValueView| match #[trigger] bucket_lookup(bs1, v) {
        Some(ks) => !ks.contains(key),
        None => true,
    } by {
        match bucket_lookup(bs1, v) {
            Some(ks) => {
                if ks.contains(key) {
                    match old_lookup {
                        Some(ow) => {
                            if v == ow.value {
                                let ks0 = bucket_lookup(bs, ow.value)->0;
                                crate::index::lemma_remove_key_membership(ks0, key);
                                let l = choose|l: int| 0 <= l < ks.len() && ks[l] == key;
                                assert(ks[l] != key);
                            } else {
                                // key is stored with ow.value, so it sits in
                                // no other bucket of bs
                                let l = choose|l: int| 0 <= l < ks.len() && ks[l] == key;
                                assert(lookup_entry(es, ks[l]) matches Some(w0) && w0.value == v);
                            }
                        },
                        None => {
                            let l = choose|l: int| 0 <= l < ks.len() && ks[l] == key;
                            assert(lookup_entry(es, ks[l]) matches Some(w0) && w0.value == v);
                        },
                    }
                }
            },
            None => {},
        }
    }
    // bs1 stays consistent with es at every key other than `key`
    assert forall|v: ValueView| match #[trigger] bucket_lookup(bs1, v) {
        Some(ks) => forall|l: int|
            0 <= l < ks.len() ==> match lookup_entry(es, #[trigger] ks[l]) {
                Some(w0) => w0.value == v,
                None => false,
            } && ks[l] != key,
        None => true,
    } by {
        match bucket_lookup(bs1, v) {
            Some(ks) => {
                assert forall|l: int| 0 <= l < ks.len() implies (match lookup_entry(
                    es,
                    #[trigger] ks[l],
                ) {
                    Some(w0) => w0.value == v,
                    None => false,
                } && ks[l] != key) by {
                    match old_lookup {
                        Some(ow) => {
                            if v == ow.value {
                                let ks0 = bucket_lookup(bs, ow.value)->0;
                                crate::index::lemma_remove_key_membership(ks0, key);
                                assert(ks0.contains(ks[l]));
                                let m = choose|m: int| 0 <= m < ks0.len() && ks0[m] == ks[l];
                                assert(ks0[m] == ks[l]);
                            }
                        },
                        None => {},
                    }
                }
            },
            None => {},
        }
    }
    // direction 1: every entry of es2 is indexed in bs2
    assert forall|i: int| 0 <= i < es2.len() implies match bucket_lookup(
        bs2,
        #[trigger] es2[i].1.value,
    ) {
        Some(ks) => ks.contains(es2[i].0),
        None => false,
    } by {
        let k = es2[i].0;
        let v = es2[i].1.value;
        crate::storage::lemma_lookup_at(es2, i);
        if k == key {
            assert(v == w.value);
            let ks2 = bucket_lookup(bs2, w.value)->0;
            assert(ks2.last() == key);
        } else {
            assert(lookup_entry(es, k) == Some(es2[i].1));
            let j = crate::storage::key_index(es, k);
            crate::storage::lemma_lookup_at(es, j);
            assert(es[j].0 == k && es[j].1 == es2[i].1);
            let ks0 = bucket_lookup(bs, v)->0;
            assert(ks0.contains(k));
            let m = choose|m: int| 0 <= m < ks0.len() && ks0[m] == k;
            // the strike keeps k, and the append keeps everything
            match old_lookup {
                Some(ow) => {
                    if v == ow.value {
                        crate::index::lemma_remove_key_membership(ks0, key);
                        assert(bucket_lookup(bs1, v) matches Some(ks1) && ks1.contains(k));
                    } else {
                        assert(bucket_lookup(bs1, v) == bucket_lookup(bs, v));
                    }
                },
                None => {},
            }
            let ks1 = bucket_lookup(bs1, v)->0;
            assert(ks1.contains(k));
            if v == w.value {
                let ks2 = bucket_lookup(bs2, v)->0;
                let m1 = choose|m1: int| 0 <= m1 < ks1.len() && ks1[m1] == k;
                assert(ks2[m1] == k);
            }
        }
    }
    // direction 2 and duplicate freedom
    assert forall|v: ValueView| match #[trigger] bucket_lookup(bs2, v) {
        Some(ks) => (forall|l: int|
            0 <= l < ks.len() ==> match lookup_entry(es2, #[trigger] ks[l]) {
                Some(w0) => w0.value == v,
                None => false,
            }) && (forall|l1: int, l2: int| 0 <= l1 < l2 < ks.len() ==> ks[l1] != ks[l2]),
        None => true,
    } by {
        match bucket_lookup(bs2, v) {
            Some(ks) => {
                assert forall|l: int| 0 <= l < ks.len() implies match lookup_entry(
                    es2,
                    #[trigger] ks[l],
                ) {
                    Some(w0) => w0.value == v,
                    None => false,
                } by {
                    if v == w.value && l == ks.len() - 1 {
                        assert(ks[l] == key);
                    } else {
                        let ghost ks1 = if v == w.value {
                            bucket_lookup(bs1, v)->0
                        } else {
                            bucket_lookup(bs1, v)->0
                        };
                        assert(bucket_lookup(bs1, v) == Some(ks1) && ks1[l] == ks[l]) by {
                            if v == w.value {
                            } else {
                            }
                        }
                        assert(ks[l] != key);
                        assert(lookup_entry(es2, ks[l]) == lookup_entry(es, ks[l]));
                    }
                }
                assert forall|l1: int, l2: int| 0 <= l1 < l2 < ks.len() implies ks[l1] != ks[l2]
                    by {
                    if v == w.value && l2 == ks.len() - 1 {
                        assert(ks[l2] == key);
                        let ks1 = bucket_lookup(bs1, v)->0;
                        assert(ks[l1] == ks1[l1] && ks1[l1] != key);
                    } else {
                        let ks1 = bucket_lookup(bs1, v)->0;
                        assert(ks[l1] == ks1[l1] && ks[l2] == ks1[l2]);
                        // bs1's buckets carry no duplicates: they are bs's
                        // buckets, possibly struck
                        match old_lookup {
                            Some(ow) => {
                                if v == ow.value {
                                    let ks0 = bucket_lookup(bs, ow.value)->0;
                                    crate::index::lemma_remove_key_membership(ks0, key);
                                    lemma_struck_nodup(ks0, key);
                                }
                            },
                            None => {},
                        }
                    }
                }
            },
            None => {},
        }
    }
}

/// Striking a key out of a duplicate-free sequence leaves it duplicate-free.
proof fn lemma_struck_nodup(ks: Seq<Seq<char>>, k: Seq<char>)
    requires
        forall|l1: int, l2: int| 0 <= l1 < l2 < ks.len() ==> ks[l1] != ks[l2],
    ensures
        forall|l1: int, l2: int|
            0 <= l1 < l2 < crate::index::remove_key(ks, k).len() ==> crate::index::remove_key(
                ks,
                k,
            )[l1] != crate::index::remove_key(ks, k)[l2],
    decreases ks.len(),
{
    if ks.len() == 0 {
    } else {
        let rest = ks.drop_first();
        assert(forall|l: int| 0 <= l < rest.len() ==> #[trigger] rest[l] == ks[l + 1]);
        lemma_struck_nodup(rest, k);
        crate::index::lemma_remove_key_membership(rest, k);
        let rm = crate::index::remove_key(ks, k);
        if ks[0] != k {
            assert forall|l1: int, l2: int| 0 <= l1 < l2 < rm.len() implies rm[l1] != rm[l2] by {
                assert(rm[l2] == crate::index::remove_key(rest, k)[l2 - 1]);
                if l1 == 0 {
                    assert(rm[0] == ks[0]);
                    let m = choose|m: int| 0 <= m < rest.len() && rest[m] == rm[l2];
                    assert(ks[m + 1] == rm[l2]);
                } else {
                    assert(rm[l1] == crate::index::remove_key(rest, k)[l1 - 1]);
                }
            }
        }
    }
}

/// Removing a stored (key, w) from storage and striking its key from its
/// value's bucket together preserve consistency.
proof fn lemma_remove_consistent(
    es: Entries,
    bs: Buckets,
    es2: Entries,
    bs2: Buckets,
    key: Seq<char>,
    w: WrappedView,
)
    requires
        crate::storage::keys_unique(es),
        crate::storage::keys_unique(es2),
        index_consistent(es, bs),
        lookup_entry(es, key) == Some(w),
        lookup_entry(es2, key) is None,
        forall|k: Seq<char>|
            k != key ==> #[trigger] lookup_entry(es2, k) == lookup_entry(es, k),
        bucket_lookup(bs2, w.value) == (match bucket_lookup(bs, w.value) {
            Some(ks) => if crate::index::remove_key(ks, key).len() == 0 {
                None
            } else {
                Some(crate::index::remove_key(ks, key))
            },
            None => None,
        }),
        forall|v: ValueView|
            v != w.value ==> #[trigger] bucket_lookup(bs2, v) == bucket_lookup(bs, v),
    ensures
        index_consistent(es2, bs2),
{
    assert forall|i: int| 0 <= i < es2.len() implies match bucket_lookup(
        bs2,
        #[trigger] es2[i].1.value,
    ) {
        Some(ks) => ks.contains(es2[i].0),
        None => false,
    } by {
        let k = es2[i].0;
        let v = es2[i].1.value;
        crate::storage::lemma_lookup_at(es2, i);
        assert(k != key);
        assert(lookup_entry(es, k) == Some(es2[i].1));
        let j = crate::storage::key_index(es, k);
        crate::storage::lemma_lookup_at(es, j);
        let ks0 = bucket_lookup(bs, v)->0;
        assert(ks0.contains(k));
        if v == w.value {
            crate::index::lemma_remove_key_membership(ks0, key);
            let m = choose|m: int| 0 <= m < ks0.len() && ks0[m] == k;
            assert(ks0[m] == k && k != key);
            assert(crate::index::remove_key(ks0, key).contains(k));
        }
    }
    assert forall|v: ValueView| match #[trigger] bucket_lookup(bs2, v) {
        Some(ks) => (forall|l: int|
            0 <= l < ks.len() ==> match lookup_entry(es2, #[trigger] ks[l]) {
                Some(w0) => w0.value == v,
                None => false,
            }) && (forall|l1: int, l2: int| 0 <= l1 < l2 < ks.len() ==> ks[l1] != ks[l2]),
        None => true,
    } by {
        match bucket_lookup(bs2, v) {
            Some(ks) => {
                if v == w.value {
                    let ks0 = bucket_lookup(bs, v)->0;
                    crate::index::lemma_remove_key_membership(ks0, key);
                    lemma_struck_nodup(ks0, key);
                    assert forall|l: int| 0 <= l < ks.len() implies match lookup_entry(
                        es2,
                        #[trigger] ks[l],
                    ) {
                        Some(w0) => w0.value == v,
                        None => false,
                    } by {
                        assert(ks[l] != key && ks0.contains(ks[l]));
                        let m = choose|m: int| 0 <= m < ks0.len() && ks0[m] == ks[l];
                        assert(ks0[m] == ks[l]);
                        assert(lookup_entry(es2, ks[l]) == lookup_entry(es, ks[l]));
                    }
                } else {
                    assert forall|l: int| 0 <= l < ks.len() implies match lookup_entry(
                        es2,
                        #[trigger] ks[l],
                    ) {
                        Some(w0) => w0.value == v,
                        None => false,
                    } by {
                        assert(bucket_lookup(bs, v) == Some(ks));
                        assert(match lookup_entry(es, ks[l]) {
                            Some(w0) => w0.value == v,
                            None => false,
                        });
                        assert(ks[l] != key);
                    }
                }
            },
            None => {},
        }
    }
}

} // verus!
