use vstd::prelude::*;
use core::cmp::Ordering;
use crate::codec::{codec_fits, codec_ok};
use crate::database::{index_consistent, Backend, Database, StorageKind};
use crate::error::DatabaseError;
use crate::index::{bucket_lookup, value_index, Buckets, Index};
use crate::storage::{
    entry_wf, keys_sorted, keys_unique, lemma_adjacent_sorted, lookup_entry, make_entry,
    store_view, Entries, Storage, StoredEntry,
};
use crate::types::{lemma_lex_props, str_compare, Value, ValueWithTTL};
use crate::btree::BTreeStorage;
use crate::hashmap::HashMapStorage;

verus! {

// ---------------------------------------------------------------------------
// Snapshots at the value level: the whole state goes out as plain vectors —
// entries and buckets, element for element — and comes back in through a
// validating constructor, so that every database ever loaded provably
// satisfies the invariant. How those vectors are framed as file bytes is the
// unverified shell's concern; a snapshot is opaque to callers either way.
// ---------------------------------------------------------------------------

/// The mathematical content of exported entries.
pub open spec fn entries_view(v: Seq<(String, ValueWithTTL)>) -> Entries {
    v.map(|i: int, p: (String, ValueWithTTL)| (p.0@, p.1@))
}

/// The mathematical content of exported buckets.
pub open spec fn buckets_view(v: Seq<(Value, Vec<String>)>) -> Buckets {
    v.map(|i: int, p: (Value, Vec<String>)| (p.0@, p.1.deep_view()))
}

/// A structural copy of a key list.
fn clone_strings(src: &Vec<String>) -> (r: Vec<String>)
    ensures
        r.deep_view() == src.deep_view(),
{
    let n = src.len();
    let mut out: Vec<String> = Vec::new();
    let mut l: usize = 0;
    while l < n
        invariant
            l <= n,
            n == src@.len(),
            out@.len() == l,
            forall|j: int| 0 <= j < l ==> #[trigger] out@[j]@ == src@[j]@,
        decreases n - l,
    {
        let s = src[l].clone();
        proof {
            assert(s@ == src@[l as int]@);
        }
        out.push(s);
        l = l + 1;
    }
    proof {
        assert(out.deep_view() =~~= src.deep_view());
    }
    out
}

/// What a load validates: every value within the codec's bounds, the key
/// discipline of the chosen backend, well-formed buckets, and agreement
/// between storage and index. Exactly the states a database can be in.
pub open spec fn import_ok(kind: StorageKind, es: Entries, bs: Buckets) -> bool {
    &&& forall|i: int| 0 <= i < es.len() ==> codec_ok((#[trigger] es[i]).1)
    &&& match kind {
        StorageKind::BTree => keys_sorted(es),
        StorageKind::HashMap => keys_unique(es),
    }
    &&& crate::index::index_wf(bs)
    &&& index_consistent(es, bs)
}

impl Database {
    /// The entire state, for persistence: the entries in iteration order and
    /// the index buckets, element for element.
    pub fn export_state(&self) -> (r: (Vec<(String, ValueWithTTL)>, Vec<(Value, Vec<String>)>))
        requires
            self.inv(),
        ensures
            entries_view(r.0@) == self.entries(),
            buckets_view(r.1@) == self.buckets(),
    {
        let entries = self.storage.iter();
        let m = self.index.data.len();
        let mut buckets: Vec<(Value, Vec<String>)> = Vec::new();
        let mut b: usize = 0;
        while b < m
            invariant
                b <= m,
                m == self.index.data@.len(),
                buckets@.len() == b,
                forall|j: int|
                    0 <= j < b ==> (#[trigger] buckets@[j]).0@ == self.index.data@[j].0@ && buckets@[
                        j
                    ].1.deep_view() == self.index.data@[j].1.deep_view(),
            decreases m - b,
        {
            let v = self.index.data[b].0.clone();
            let ks = clone_strings(&self.index.data[b].1);
            proof {
                assert(v@ == self.index.data@[b as int].0@);
            }
            buckets.push((v, ks));
            b = b + 1;
        }
        proof {
            assert(entries_view(entries@) =~~= self.entries());
            assert(buckets_view(buckets@) =~~= self.buckets());
        }
        (entries, buckets)
    }

    /// Rebuilds a database from an exported state. Everything is validated —
    /// codec bounds, key order or uniqueness for the chosen backend, bucket
    /// shape, and storage/index consistency — so a successful load satisfies
    /// the invariant and holds exactly the given state; anything else is a
    /// serialization error, never a silently mended database.
    pub fn import_state(
        kind: StorageKind,
        entries: Vec<(String, ValueWithTTL)>,
        buckets: Vec<(Value, Vec<String>)>,
    ) -> (r: Result<Database, DatabaseError>)
        ensures
            r matches Ok(db) ==> db.inv() && db.kind() == kind && db.entries() == entries_view(
                entries@,
            ) && db.buckets() == buckets_view(buckets@),
            r matches Err(e) ==> e matches DatabaseError::SerializationError(_),
            import_ok(kind, entries_view(entries@), buckets_view(buckets@)) ==> r is Ok,
    {
        let ghost ok_hyp = import_ok(kind, entries_view(entries@), buckets_view(buckets@));
        let n = entries.len();
        let mut slots: Vec<StoredEntry> = Vec::new();
        let mut i: usize = 0;
        while i < n
            invariant
                i <= n,
                n == entries@.len(),
                ok_hyp == import_ok(kind, entries_view(entries@), buckets_view(buckets@)),
                slots@.len() == i,
                forall|j: int| 0 <= j < i ==> entry_wf(#[trigger] slots@[j]),
                forall|j: int|
                    0 <= j < i ==> (#[trigger] slots@[j].key@, slots@[j].wrapped@) == (
                    entries@[j].0@,
                    entries@[j].1@,
                ),
            decreases n - i,
        {
            if !codec_fits(&entries[i].1) {
                proof {
                    assert(entries_view(entries@)[i as int].1 == entries@[i as int].1@);
                    assert(!ok_hyp);
                }
                return Err(
                    DatabaseError::SerializationError(
                        String::from_str("a stored value does not fit the codec"),
                    ),
                );
            }
            let e = make_entry(entries[i].0.as_str(), entries[i].1.clone());
            slots.push(e);
            i = i + 1;
        }
        proof {
            assert(store_view(slots@) =~~= entries_view(entries@));
        }
        let ghost ev = entries_view(entries@);
        let storage: Backend = match kind {
            StorageKind::BTree => {
                if !keys_ascending(&slots) {
                    proof {
                        assert(!ok_hyp);
                    }
                    return Err(
                        DatabaseError::SerializationError(
                            String::from_str("ordered snapshot keys are not ascending"),
                        ),
                    );
                }
                Backend::BTree(BTreeStorage { slots })
            },
            StorageKind::HashMap => {
                if !keys_distinct(&slots) {
                    proof {
                        assert(!ok_hyp);
                    }
                    return Err(
                        DatabaseError::SerializationError(
                            String::from_str("snapshot keys are not unique"),
                        ),
                    );
                }
                Backend::HashMap(HashMapStorage { slots })
            },
        };
        if !buckets_valid(&buckets) {
            proof {
                assert(!ok_hyp);
            }
            return Err(
                DatabaseError::SerializationError(
                    String::from_str("snapshot index buckets are malformed"),
                ),
            );
        }
        let index = Index { data: buckets };
        proof {
            assert(index.buckets() =~~= buckets_view(index.data@));
        }
        if !check_consistent(&storage, &index) {
            proof {
                assert(!ok_hyp);
            }
            return Err(
                DatabaseError::SerializationError(
                    String::from_str("snapshot index disagrees with its storage"),
                ),
            );
        }
        Ok(Database { storage, index })
    }
}

/// Whether every neighbouring pair of slot keys strictly ascends; a pass
/// guarantees the sorted-keys invariant.
#[verifier::rlimit(60)]
fn keys_ascending(slots: &Vec<StoredEntry>) -> (r: bool)
    ensures
        r == keys_sorted(store_view(slots@)),
{
    let ghost es = store_view(slots@);
    let n = slots.len();
    if n == 0 {
        return true;
    }
    let mut i: usize = 0;
    while i < n - 1
        invariant
            i <= n - 1,
            n == slots@.len(),
            es == store_view(slots@),
            forall|j: int|
                0 <= j < i ==> crate::types::lex_cmp(#[trigger] es[j].0, es[j + 1].0)
                    == Ordering::Less,
        decreases n - i,
    {
        let c = str_compare(slots[i].key.as_str(), slots[i + 1].key.as_str());
        if !matches!(c, Ordering::Less) {
            proof {
                assert(es[i as int] == (slots@[i as int].key@, slots@[i as int].wrapped@));
                assert(es[i + 1] == (slots@[i + 1].key@, slots@[i + 1].wrapped@));
                assert(crate::types::lex_cmp(es[i as int].0, es[i + 1].0) != Ordering::Less);
                assert(!keys_sorted(es));
            }
            return false;
        }
        i = i + 1;
    }
    proof {
        lemma_adjacent_sorted(es);
    }
    true
}

/// Whether all slot keys differ; a pass guarantees the unique-keys
/// invariant.
fn keys_distinct(slots: &Vec<StoredEntry>) -> (r: bool)
    ensures
        r == keys_unique(store_view(slots@)),
{
    let ghost es = store_view(slots@);
    let n = slots.len();
    let mut i: usize = 0;
    while i < n
        invariant
            i <= n,
            n == slots@.len(),
            es == store_view(slots@),
            forall|i1: int, j1: int| 0 <= i1 < i && i1 < j1 < n ==> es[i1].0 != es[j1].0,
        decreases n - i,
    {
        let mut j: usize = i + 1;
        while j < n
            invariant
                i < j <= n || (i + 1 == j && j > n),
                i < n,
                n == slots@.len(),
                es == store_view(slots@),
                forall|j1: int| i < j1 < j ==> es[i as int].0 != #[trigger] es[j1].0,
            decreases n - j,
        {
            let c = str_compare(slots[i].key.as_str(), slots[j].key.as_str());
            proof {
                lemma_lex_props(es[i as int].0, es[j as int].0);
            }
            if matches!(c, Ordering::Equal) {
                proof {
                    assert(es[i as int].0 == es[j as int].0);
                    assert(!keys_unique(es));
                }
                return false;
            }
            j = j + 1;
        }
        i = i + 1;
    }
    true
}

/// Whether the buckets are shaped as the index invariant demands: none
/// empty, no value twice.
fn buckets_valid(data: &Vec<(Value, Vec<String>)>) -> (r: bool)
    ensures
        r == crate::index::index_wf(buckets_view(data@)),
{
    let ghost bs = buckets_view(data@);
    let m = data.len();
    let mut b: usize = 0;
    while b < m
        invariant
            b <= m,
            m == data@.len(),
            bs == buckets_view(data@),
            forall|b1: int| 0 <= b1 < b ==> #[trigger] bs[b1].1.len() > 0,
            forall|b1: int, b2: int| 0 <= b1 < b && b1 < b2 < m ==> bs[b1].0 != bs[b2].0,
        decreases m - b,
    {
        if data[b].1.len() == 0 {
            proof {
                assert(bs[b as int].1.len() == 0);
            }
            return false;
        }
        let mut b2: usize = b + 1;
        while b2 < m
            invariant
                b < b2 <= m || (b + 1 == b2 && b2 > m),
                b < m,
                m == data@.len(),
                bs == buckets_view(data@),
                forall|j1: int| b < j1 < b2 ==> bs[b as int].0 != #[trigger] bs[j1].0,
            decreases m - b2,
        {
            if data[b].0 == data[b2].0 {
                proof {
                    assert(bs[b as int].0 == bs[b2 as int].0);
                }
                return false;
            }
            b2 = b2 + 1;
        }
        b = b + 1;
    }
    true
}

/// Whether some listed key equals the probe.
fn holds_key(ks: &Vec<String>, key: &str) -> (r: bool)
    ensures
        r == ks.deep_view().contains(key@),
{
    let n = ks.len();
    let mut l: usize = 0;
    while l < n
        invariant
            l <= n,
            n == ks@.len(),
            forall|j: int| 0 <= j < l ==> ks.deep_view()[j] != key@,
        decreases n - l,
    {
        let c = str_compare(ks[l].as_str(), key);
        proof {
            lemma_lex_props(ks@[l as int]@, key@);
        }
        if matches!(c, Ordering::Equal) {
            proof {
                assert(ks.deep_view()[l as int] == key@);
            }
            return true;
        }
        proof {
            assert(ks.deep_view()[l as int] == ks@[l as int]@);
        }
        l = l + 1;
    }
    proof {
        if ks.deep_view().contains(key@) {
            let j = choose|j: int| 0 <= j < ks.deep_view().len() && ks.deep_view()[j] == key@;
            assert(false);
        }
    }
    false
}

/// What the validator checks of one bucket against the entries.
spec fn bucket_ok(es: Entries, bs: Buckets, b: int) -> bool {
    (forall|l: int|
        0 <= l < bs[b].1.len() ==> match lookup_entry(es, #[trigger] bs[b].1[l]) {
            Some(w) => w.value == bs[b].0,
            None => false,
        }) && (forall|l1: int, l2: int| 0 <= l1 < l2 < bs[b].1.len() ==> bs[b].1[l1] != bs[b].1[l2])
}

/// Whether storage and index agree; a pass guarantees the consistency half
/// of the database invariant.
#[verifier::rlimit(60)]
fn check_consistent(storage: &Backend, index: &Index) -> (r: bool)
    requires
        storage.wf(),
        index.wf(),
    ensures
        r == index_consistent(storage.entries(), index.buckets()),
{
    let ghost es = storage.entries();
    let ghost bs = index.buckets();
    let records = storage.iter();
    proof {
        assert(records@.map(|i: int, p: (String, ValueWithTTL)| (p.0@, p.1@)) == es);
        storage.lemma_wf_unique();
    }
    let n = records.len();
    let mut i: usize = 0;
    while i < n
        invariant
            i <= n,
            n == records@.len(),
            es == records@.map(|i: int, p: (String, ValueWithTTL)| (p.0@, p.1@)),
            es == storage.entries(),
            bs == index.buckets(),
            storage.wf(),
            index.wf(),
            forall|j: int|
                0 <= j < i ==> match bucket_lookup(bs, #[trigger] es[j].1.value) {
                    Some(ks) => ks.contains(es[j].0),
                    None => false,
                },
        decreases n - i,
    {
        proof {
            assert(es[i as int] == (records@[i as int].0@, records@[i as int].1@));
        }
        match index.get(&records[i].1.value) {
            None => {
                proof {
                    assert(bucket_lookup(bs, es[i as int].1.value) is None);
                    assert(!index_consistent(es, bs)) by {
                        if index_consistent(es, bs) {
                            assert(match bucket_lookup(bs, es[i as int].1.value) {
                                Some(ks0) => ks0.contains(es[i as int].0),
                                None => false,
                            });
                        }
                    }
                }
                return false;
            },
            Some(ks) => {
                if !holds_key(&ks, records[i].0.as_str()) {
                    proof {
                        assert(bucket_lookup(bs, es[i as int].1.value) matches Some(ks0)
                            && !ks0.contains(es[i as int].0));
                        assert(!index_consistent(es, bs)) by {
                            if index_consistent(es, bs) {
                                assert(match bucket_lookup(bs, es[i as int].1.value) {
                                    Some(ks0) => ks0.contains(es[i as int].0),
                                    None => false,
                                });
                            }
                        }
                    }
                    return false;
                }
                proof {
                    let l = choose|l: int|
                        0 <= l < ks.deep_view().len() && ks.deep_view()[l] == es[i as int].0;
                    assert(bucket_lookup(bs, es[i as int].1.value)->0[l] == es[i as int].0);
                }
            },
        }
        i = i + 1;
    }
    let m = index.data.len();
    let mut b: usize = 0;
    while b < m
        invariant
            b <= m,
            m == index.data@.len(),
            es == storage.entries(),
            bs == index.buckets(),
            storage.wf(),
            index.wf(),
            forall|b1: int| 0 <= b1 < b ==> bucket_ok(es, bs, b1),
        decreases m - b,
    {
        let ks = &index.data[b].1;
        let klen = ks.len();
        let mut l: usize = 0;
        while l < klen
            invariant
                l <= klen,
                b < m,
                m == index.data@.len(),
                klen == index.data@[b as int].1@.len(),
                ks == &index.data@[b as int].1,
                es == storage.entries(),
                bs == index.buckets(),
                storage.wf(),
                index.wf(),
                forall|l1: int|
                    0 <= l1 < l ==> match lookup_entry(es, #[trigger] bs[b as int].1[l1]) {
                        Some(w) => w.value == bs[b as int].0,
                        None => false,
                    },
                forall|l1: int, l2: int|
                    0 <= l1 < l && l1 < l2 < klen ==> bs[b as int].1[l1] != bs[b as int].1[l2],
            decreases klen - l,
        {
            proof {
                assert(bs[b as int].1[l as int] == ks@[l as int]@);
            }
            match storage.get(ks[l].as_str()) {
                None => {
                    proof {
                        crate::index::lemma_bucket_at(bs, b as int);
                        assert(lookup_entry(es, bs[b as int].1[l as int]) is None);
                        assert(!index_consistent(es, bs)) by {
                            if index_consistent(es, bs) {
                                assert(bucket_lookup(bs, bs[b as int].0) == Some(bs[b as int].1));
                                assert(bucket_lookup(bs, bs[b as int].0)->0[l as int] == bs[
                                    b as int
                                ].1[l as int]);
                                assert(match lookup_entry(es, bs[b as int].1[l as int]) {
                                    Some(w0) => w0.value == bs[b as int].0,
                                    None => false,
                                });
                            }
                        }
                    }
                    return false;
                },
                Some(w) => {
                    if !(w.value == index.data[b].0) {
                        proof {
                            crate::index::lemma_bucket_at(bs, b as int);
                            assert(bs[b as int].0 == index.data@[b as int].0@);
                            assert(lookup_entry(es, bs[b as int].1[l as int]) matches Some(w0)
                                && w0.value != bs[b as int].0);
                            assert(!index_consistent(es, bs)) by {
                                if index_consistent(es, bs) {
                                    assert(bucket_lookup(bs, bs[b as int].0) == Some(
                                        bs[b as int].1,
                                    ));
                                    assert(bucket_lookup(bs, bs[b as int].0)->0[l as int] == bs[
                                        b as int
                                    ].1[l as int]);
                                    assert(match lookup_entry(es, bs[b as int].1[l as int]) {
                                        Some(w0) => w0.value == bs[b as int].0,
                                        None => false,
                                    });
                                }
                            }
                        }
                        return false;
                    }
                    proof {
                        assert(bs[b as int].0 == index.data@[b as int].0@);
                    }
                },
            }
            let mut l2: usize = l + 1;
            while l2 < klen
                invariant
                    l < l2 <= klen || (l + 1 == l2 && l2 > klen),
                    l < klen,
                    b < m,
                    m == index.data@.len(),
                    klen == index.data@[b as int].1@.len(),
                    ks == &index.data@[b as int].1,
                    es == storage.entries(),
                    bs == index.buckets(),
                    storage.wf(),
                    index.wf(),
                    forall|j1: int|
                        l < j1 < l2 ==> bs[b as int].1[l as int] != #[trigger] bs[b as int].1[j1],
                decreases klen - l2,
            {
                let c = str_compare(ks[l].as_str(), ks[l2].as_str());
                proof {
                    lemma_lex_props(ks@[l as int]@, ks@[l2 as int]@);
                    assert(bs[b as int].1[l as int] == ks@[l as int]@);
                    assert(bs[b as int].1[l2 as int] == ks@[l2 as int]@);
                }
                if matches!(c, Ordering::Equal) {
                    proof {
                        crate::index::lemma_bucket_at(bs, b as int);
                        assert(bs[b as int].1[l as int] == bs[b as int].1[l2 as int]);
                        assert(!index_consistent(es, bs)) by {
                            if index_consistent(es, bs) {
                                assert(bucket_lookup(bs, bs[b as int].0) == Some(bs[b as int].1));
                                assert(bucket_lookup(bs, bs[b as int].0)->0[l as int] == bs[
                                    b as int
                                ].1[l as int]);
                                assert(bucket_lookup(bs, bs[b as int].0)->0[l2 as int] == bs[
                                    b as int
                                ].1[l2 as int]);
                            }
                        }
                    }
                    return false;
                }
                l2 = l2 + 1;
            }
            l = l + 1;
        }
        b = b + 1;
    }
    proof {
        assert forall|v: crate::types::ValueView| match #[trigger] bucket_lookup(bs, v) {
            Some(ks) => (forall|l: int|
                0 <= l < ks.len() ==> match lookup_entry(es, #[trigger] ks[l]) {
                    Some(w) => w.value == v,
                    None => false,
                }) && (forall|l1: int, l2: int| 0 <= l1 < l2 < ks.len() ==> ks[l1] != ks[l2]),
            None => true,
        } by {
            match bucket_lookup(bs, v) {
                Some(ks) => {
                    let b0 = value_index(bs, v);
                    assert(bs[b0] == (v, ks));
                    assert(bucket_ok(es, bs, b0));
                },
                None => {},
            }
        }
    }
    true
}

} // verus!
