use vstd::prelude::*;
use core::cmp::Ordering;
use crate::codec::{codec_ok, compress, compressed_of, decompress};
use crate::types::{expired, lex_cmp, str_compare, ValueWithTTL, WrappedView};
use crate::types::{lemma_lex_props, lemma_lex_trans};

verus! {

// ---------------------------------------------------------------------------
// The storage contract shared by both backends: a mapping from key to the
// compressed form of a wrapped value. A backend's mathematical content is a
// sequence of (key, wrapped value) pairs in its iteration order; the two
// backends differ only in where an insertion lands in that order.
// ---------------------------------------------------------------------------

/// The logical content of a backend: its entries in iteration order.
pub type Entries = Seq<(Seq<char>, WrappedView)>;

/// No two entries share a key.
pub open spec fn keys_unique(es: Entries) -> bool {
    forall|i: int, j: int| 0 <= i < j < es.len() ==> es[i].0 != es[j].0
}

/// Entries run in strictly ascending key order.
pub open spec fn keys_sorted(es: Entries) -> bool {
    forall|i: int, j: int|
        0 <= i < j < es.len() ==> lex_cmp(es[i].0, es[j].0) == Ordering::Less
}

/// Whether some entry holds the key.
pub open spec fn has_key(es: Entries, k: Seq<char>) -> bool {
    exists|i: int| 0 <= i < es.len() && es[i].0 == k
}

/// The position of the entry holding the key; meaningful under unique keys.
pub open spec fn key_index(es: Entries, k: Seq<char>) -> int {
    choose|i: int| 0 <= i < es.len() && es[i].0 == k
}

/// The wrapped value stored under a key, if any.
pub open spec fn lookup_entry(es: Entries, k: Seq<char>) -> Option<WrappedView> {
    if has_key(es, k) {
        Some(es[key_index(es, k)].1)
    } else {
        None
    }
}

/// What remains of the entries after sweeping out everything expired at
/// `now`, in the same order.
pub open spec fn sweep(es: Entries, now: u64) -> Entries
    decreases es.len(),
{
    if es.len() == 0 {
        Seq::empty()
    } else if expired(es[0].1, now) {
        sweep(es.drop_first(), now)
    } else {
        seq![es[0]] + sweep(es.drop_first(), now)
    }
}

/// Ascending key order forces unique keys.
pub proof fn lemma_sorted_unique(es: Entries)
    requires
        keys_sorted(es),
    ensures
        keys_unique(es),
{
    assert forall|i: int, j: int| 0 <= i < j < es.len() implies es[i].0 != es[j].0 by {
        lemma_lex_props(es[i].0, es[j].0);
    }
}

/// Under unique keys, the entry at any position is what lookup finds for its
/// key.
pub proof fn lemma_lookup_at(es: Entries, i: int)
    requires
        keys_unique(es),
        0 <= i < es.len(),
    ensures
        lookup_entry(es, es[i].0) == Some(es[i].1),
        key_index(es, es[i].0) == i,
{
    assert(has_key(es, es[i].0));
    let j = key_index(es, es[i].0);
    assert(0 <= j < es.len() && es[j].0 == es[i].0);
    if i != j {
        assert(false);
    }
}

/// The sweep keeps exactly the unexpired entries, keeps their order, and
/// preserves key uniqueness and sortedness.
pub proof fn lemma_sweep_props(es: Entries, now: u64)
    ensures
        forall|i: int| #![trigger sweep(es, now)[i]]
            0 <= i < sweep(es, now).len() ==> !expired(sweep(es, now)[i].1, now) && (exists|j: int|
                #![trigger es[j]]
                0 <= j < es.len() && es[j] == sweep(es, now)[i]),
        forall|j: int| #![trigger es[j]]
            0 <= j < es.len() && !expired(es[j].1, now) ==> (exists|i: int|
                #![trigger sweep(es, now)[i]]
                0 <= i < sweep(es, now).len() && sweep(es, now)[i] == es[j]),
        keys_unique(es) ==> keys_unique(sweep(es, now)),
        keys_sorted(es) ==> keys_sorted(sweep(es, now)),
        keys_unique(es) ==> forall|k: Seq<char>|
            #[trigger] lookup_entry(sweep(es, now), k) == (match lookup_entry(es, k) {
                Some(w) => if expired(w, now) {
                    None
                } else {
                    Some(w)
                },
                None => None,
            }),
{
    lemma_sweep_membership(es, now);
    if keys_unique(es) {
        lemma_sweep_unique(es, now);
        assert forall|k: Seq<char>| #[trigger] lookup_entry(sweep(es, now), k) == (
        match lookup_entry(es, k) {
            Some(w) => if expired(w, now) {
                None
            } else {
                Some(w)
            },
            None => None,
        }) by {
            lemma_sweep_lookup_one(es, now, k);
        }
    }
    if keys_sorted(es) {
        lemma_sweep_sorted(es, now);
    }
}

/// The sweep's entries are exactly the unexpired entries, both ways.
proof fn lemma_sweep_membership(es: Entries, now: u64)
    ensures
        forall|i: int| #![trigger sweep(es, now)[i]]
            0 <= i < sweep(es, now).len() ==> !expired(sweep(es, now)[i].1, now) && (exists|j: int|
                #![trigger es[j]]
                0 <= j < es.len() && es[j] == sweep(es, now)[i]),
        forall|j: int| #![trigger es[j]]
            0 <= j < es.len() && !expired(es[j].1, now) ==> (exists|i: int|
                #![trigger sweep(es, now)[i]]
                0 <= i < sweep(es, now).len() && sweep(es, now)[i] == es[j]),
    decreases es.len(),
{
    if es.len() == 0 {
    } else {
        let rest = es.drop_first();
        lemma_sweep_membership(rest, now);
        let sw = sweep(es, now);
        let off: int = if expired(es[0].1, now) {
            0
        } else {
            1
        };
        assert forall|i: int| 0 <= i < sw.len() implies !expired(#[trigger] sw[i].1, now) && (
        exists|j: int| #![trigger es[j]] 0 <= j < es.len() && es[j] == sw[i]) by {
            if off == 1 && i == 0 {
                assert(es[0] == sw[0]);
            } else {
                assert(sw[i] == sweep(rest, now)[i - off]);
                let j0 = choose|j: int|
                    #![trigger rest[j]]
                    0 <= j < rest.len() && rest[j] == sweep(rest, now)[i - off];
                assert(rest[j0] == es[j0 + 1]);
            }
        }
        assert forall|j: int| 0 <= j < es.len() && !expired(#[trigger] es[j].1, now) implies (
        exists|i: int| #![trigger sw[i]] 0 <= i < sw.len() && sw[i] == es[j]) by {
            if j == 0 {
                assert(off == 1 && sw[0] == es[0]);
            } else {
                assert(rest[j - 1] == es[j]);
                let i0 = choose|i: int|
                    #![trigger sweep(rest, now)[i]]
                    0 <= i < sweep(rest, now).len() && sweep(rest, now)[i] == rest[j - 1];
                assert(sw[i0 + off] == es[j]);
            }
        }
    }
}

/// Sortedness survives the sweep.
proof fn lemma_sweep_sorted(es: Entries, now: u64)
    requires
        keys_sorted(es),
    ensures
        keys_sorted(sweep(es, now)),
    decreases es.len(),
{
    if es.len() == 0 {
    } else {
        let rest = es.drop_first();
        assert(keys_sorted(rest)) by {
            assert forall|i: int, j: int| 0 <= i < j < rest.len() implies lex_cmp(
                rest[i].0,
                rest[j].0,
            ) == Ordering::Less by {
                assert(rest[i] == es[i + 1] && rest[j] == es[j + 1]);
            }
        }
        lemma_sweep_sorted(rest, now);
        lemma_sweep_membership(rest, now);
        let sw = sweep(es, now);
        if !expired(es[0].1, now) {
            assert forall|i: int, j: int| 0 <= i < j < sw.len() implies lex_cmp(sw[i].0, sw[j].0)
                == Ordering::Less by {
                assert(sw[j] == sweep(rest, now)[j - 1]);
                let j0 = choose|j2: int|
                    #![trigger rest[j2]]
                    0 <= j2 < rest.len() && rest[j2] == sweep(rest, now)[j - 1];
                assert(rest[j0] == es[j0 + 1]);
                if i == 0 {
                    assert(sw[0] == es[0]);
                } else {
                    assert(sw[i] == sweep(rest, now)[i - 1]);
                }
            }
        }
    }
}

/// Key uniqueness survives the sweep.
proof fn lemma_sweep_unique(es: Entries, now: u64)
    requires
        keys_unique(es),
    ensures
        keys_unique(sweep(es, now)),
    decreases es.len(),
{
    if es.len() == 0 {
    } else {
        let rest = es.drop_first();
        assert(keys_unique(rest)) by {
            assert forall|i: int, j: int| 0 <= i < j < rest.len() implies rest[i].0 != rest[j].0
                by {
                assert(rest[i] == es[i + 1] && rest[j] == es[j + 1]);
            }
        }
        lemma_sweep_unique(rest, now);
        lemma_sweep_membership(rest, now);
        let sw = sweep(es, now);
        if !expired(es[0].1, now) {
            assert forall|i: int, j: int| 0 <= i < j < sw.len() implies sw[i].0 != sw[j].0 by {
                assert(sw[j] == sweep(rest, now)[j - 1]);
                let j0 = choose|j2: int|
                    #![trigger rest[j2]]
                    0 <= j2 < rest.len() && rest[j2] == sweep(rest, now)[j - 1];
                assert(rest[j0] == es[j0 + 1]);
                if i == 0 {
                    assert(sw[0] == es[0]);
                } else {
                    assert(sw[i] == sweep(rest, now)[i - 1]);
                }
            }
        }
    }
}

/// What the sweep does to a single key's lookup, under unique keys.
proof fn lemma_sweep_lookup_one(es: Entries, now: u64, k: Seq<char>)
    requires
        keys_unique(es),
    ensures
        lookup_entry(sweep(es, now), k) == (match lookup_entry(es, k) {
            Some(w) => if expired(w, now) {
                None
            } else {
                Some(w)
            },
            None => None,
        }),
{
    lemma_sweep_unique(es, now);
    lemma_sweep_membership(es, now);
    let sw = sweep(es, now);
    match lookup_entry(es, k) {
        Some(w) => {
            let j = key_index(es, k);
            assert(0 <= j < es.len() && es[j].0 == k && es[j].1 == w);
            if expired(w, now) {
                if has_key(sw, k) {
                    let i = key_index(sw, k);
                    assert(0 <= i < sw.len() && sw[i].0 == k);
                    let j2 = choose|j2: int| #![trigger es[j2]] 0 <= j2 < es.len() && es[j2] == sw[i];
                    assert(es[j2].0 == k);
                    if j2 != j {
                        assert(false);
                    }
                    assert(!expired(sw[i].1, now));
                    assert(false);
                }
            } else {
                let i0 = choose|i: int| #![trigger sw[i]] 0 <= i < sw.len() && sw[i] == es[j];
                assert(sw[i0].0 == k);
                lemma_lookup_at(sw, i0);
            }
        },
        None => {
            if has_key(sw, k) {
                let i = key_index(sw, k);
                assert(0 <= i < sw.len() && sw[i].0 == k);
                let j2 = choose|j2: int| #![trigger es[j2]] 0 <= j2 < es.len() && es[j2] == sw[i];
                assert(es[j2].0 == k);
                assert(has_key(es, k));
            }
        },
    }
}

/// If every neighbouring pair of keys ascends, the whole sequence does.
pub proof fn lemma_adjacent_sorted(es: Entries)
    requires
        forall|i: int|
            0 <= i < es.len() - 1 ==> lex_cmp(#[trigger] es[i].0, es[i + 1].0) == Ordering::Less,
    ensures
        keys_sorted(es),
{
    assert forall|i: int, j: int| 0 <= i < j < es.len() implies lex_cmp(es[i].0, es[j].0)
        == Ordering::Less by {
        lemma_lex_chain(es, i, j);
    }
}

/// The ascent of neighbours carries over any distance.
proof fn lemma_lex_chain(es: Entries, i: int, j: int)
    requires
        forall|i2: int|
            0 <= i2 < es.len() - 1 ==> lex_cmp(#[trigger] es[i2].0, es[i2 + 1].0) == Ordering::Less,
        0 <= i < j < es.len(),
    ensures
        lex_cmp(es[i].0, es[j].0) == Ordering::Less,
    decreases j - i,
{
    if j == i + 1 {
    } else {
        lemma_lex_chain(es, i, j - 1);
        lemma_lex_trans(es[i].0, es[j - 1].0, es[j].0);
    }
}

/// What replacing the entry at a key's position does to lookups.
pub proof fn lemma_view_update(es: Entries, i: int, p: (Seq<char>, WrappedView))
    requires
        keys_unique(es),
        0 <= i < es.len(),
        es[i].0 == p.0,
    ensures
        keys_unique(es.update(i, p)),
        keys_sorted(es) ==> keys_sorted(es.update(i, p)),
        lookup_entry(es.update(i, p), p.0) == Some(p.1),
        forall|k: Seq<char>|
            k != p.0 ==> #[trigger] lookup_entry(es.update(i, p), k) == lookup_entry(es, k),
{
    let es2 = es.update(i, p);
    assert(forall|j: int| 0 <= j < es.len() ==> #[trigger] es2[j].0 == es[j].0);
    lemma_lookup_at(es2, i);
    assert forall|k: Seq<char>| k != p.0 implies #[trigger] lookup_entry(es2, k) == lookup_entry(
        es,
        k,
    ) by {
        if has_key(es, k) {
            let j = key_index(es, k);
            assert(es2[j].0 == k);
            lemma_lookup_at(es, j);
            lemma_lookup_at(es2, j);
            assert(j != i);
        } else {
            if has_key(es2, k) {
                let j = key_index(es2, k);
                assert(es[j].0 == k);
            }
        }
    }
}

/// What inserting a fresh key at some position does to lookups.
pub proof fn lemma_view_insert(es: Entries, i: int, p: (Seq<char>, WrappedView))
    requires
        keys_unique(es),
        !has_key(es, p.0),
        0 <= i <= es.len(),
    ensures
        keys_unique(es.insert(i, p)),
        lookup_entry(es.insert(i, p), p.0) == Some(p.1),
        forall|k: Seq<char>|
            k != p.0 ==> #[trigger] lookup_entry(es.insert(i, p), k) == lookup_entry(es, k),
{
    let es2 = es.insert(i, p);
    assert(forall|j: int| 0 <= j < i ==> #[trigger] es2[j] == es[j]);
    assert(forall|j: int| i < j < es2.len() ==> #[trigger] es2[j] == es[j - 1]);
    assert(es2[i] == p);
    assert forall|j1: int, j2: int| 0 <= j1 < j2 < es2.len() implies es2[j1].0 != es2[j2].0 by {
        if j1 != i && j2 != i {
            let o1: int = if j1 < i {
                j1
            } else {
                j1 - 1
            };
            let o2: int = if j2 < i {
                j2
            } else {
                j2 - 1
            };
            assert(es2[j1] == es[o1] && es2[j2] == es[o2]);
        }
    }
    lemma_lookup_at(es2, i);
    assert forall|k: Seq<char>| k != p.0 implies #[trigger] lookup_entry(es2, k) == lookup_entry(
        es,
        k,
    ) by {
        if has_key(es, k) {
            let j = key_index(es, k);
            let j2: int = if j < i {
                j
            } else {
                j + 1
            };
            assert(es2[j2].0 == k);
            lemma_lookup_at(es, j);
            lemma_lookup_at(es2, j2);
        } else {
            if has_key(es2, k) {
                let j = key_index(es2, k);
                let o: int = if j < i {
                    j
                } else {
                    j - 1
                };
                assert(es[o].0 == k);
            }
        }
    }
}

/// What removing the entry at a position does to lookups.
pub proof fn lemma_view_remove(es: Entries, i: int)
    requires
        keys_unique(es),
        0 <= i < es.len(),
    ensures
        keys_unique(es.remove(i)),
        keys_sorted(es) ==> keys_sorted(es.remove(i)),
        lookup_entry(es.remove(i), es[i].0) is None,
        forall|k: Seq<char>|
            k != es[i].0 ==> #[trigger] lookup_entry(es.remove(i), k) == lookup_entry(es, k),
{
    let es2 = es.remove(i);
    assert(forall|j: int| 0 <= j < i ==> #[trigger] es2[j] == es[j]);
    assert(forall|j: int| i <= j < es2.len() ==> #[trigger] es2[j] == es[j + 1]);
    assert forall|j1: int, j2: int| 0 <= j1 < j2 < es2.len() implies es2[j1].0 != es2[j2].0 by {
        let o1: int = if j1 < i {
            j1
        } else {
            j1 + 1
        };
        let o2: int = if j2 < i {
            j2
        } else {
            j2 + 1
        };
        assert(es2[j1] == es[o1] && es2[j2] == es[o2]);
    }
    if keys_sorted(es) {
        assert forall|j1: int, j2: int| 0 <= j1 < j2 < es2.len() implies lex_cmp(
            es2[j1].0,
            es2[j2].0,
        ) == Ordering::Less by {
            let o1: int = if j1 < i {
                j1
            } else {
                j1 + 1
            };
            let o2: int = if j2 < i {
                j2
            } else {
                j2 + 1
            };
            assert(es2[j1] == es[o1] && es2[j2] == es[o2]);
        }
    }
    if has_key(es2, es[i].0) {
        let j = key_index(es2, es[i].0);
        let o: int = if j < i {
            j
        } else {
            j + 1
        };
        assert(es[o].0 == es[i].0);
        assert(false);
    }
    assert forall|k: Seq<char>| k != es[i].0 implies #[trigger] lookup_entry(es2, k)
        == lookup_entry(es, k) by {
        if has_key(es, k) {
            let j = key_index(es, k);
            assert(j != i);
            let j2: int = if j < i {
                j
            } else {
                j - 1
            };
            assert(es2[j2].0 == k);
            lemma_lookup_at(es, j);
            lemma_lookup_at(es2, j2);
        } else {
            if has_key(es2, k) {
                let j = key_index(es2, k);
                let o: int = if j < i {
                    j
                } else {
                    j + 1
                };
                assert(es[o].0 == k);
            }
        }
    }
}

/// Appending one entry extends the sweep by that entry when it is alive.
pub proof fn lemma_sweep_push(es: Entries, p: (Seq<char>, WrappedView), now: u64)
    ensures
        sweep(es.push(p), now) == if expired(p.1, now) {
            sweep(es, now)
        } else {
            sweep(es, now).push(p)
        },
    decreases es.len(),
{
    if es.len() == 0 {
        assert(es.push(p)[0] == p);
        assert(es.push(p).drop_first() =~= Seq::empty());
        assert(sweep(Seq::empty(), now) =~= Seq::<(Seq<char>, WrappedView)>::empty());
        if expired(p.1, now) {
            assert(sweep(es.push(p), now) =~= sweep(es, now));
        } else {
            assert(sweep(es.push(p), now) =~= sweep(es, now).push(p));
        }
    } else {
        lemma_sweep_push(es.drop_first(), p, now);
        assert(es.push(p).drop_first() =~= es.drop_first().push(p));
        assert(es.push(p)[0] == es[0]);
        if expired(es[0].1, now) {
            assert(sweep(es.push(p), now) == sweep(es.drop_first().push(p), now));
        } else {
            if expired(p.1, now) {
                assert(sweep(es.push(p), now) =~= sweep(es, now));
            } else {
                assert(sweep(es.push(p), now) =~= sweep(es, now).push(p));
            }
        }
    }
}

// ---------------------------------------------------------------------------
// Stored entries: a key beside the compressed bytes of its wrapped value,
// with the wrapped value itself carried alongside as ghost information.
// ---------------------------------------------------------------------------

/// One slot of a backend: the key, the compressed bytes at rest, and — only
/// for reasoning — the wrapped value those bytes stand for.
pub struct StoredEntry {
    pub key: String,
    pub bytes: Vec<u8>,
    pub wrapped: Ghost<WrappedView>,
}

/// The bytes at rest really are the compressed form of the carried value.
pub open spec fn entry_wf(e: StoredEntry) -> bool {
    codec_ok(e.wrapped@) && e.bytes@ == compressed_of(e.wrapped@)
}

/// The logical content of a slot sequence.
pub open spec fn store_view(v: Seq<StoredEntry>) -> Entries {
    v.map(|i: int, e: StoredEntry| (e.key@, e.wrapped@))
}

/// All slots hold what they claim.
pub open spec fn slots_wf(v: Seq<StoredEntry>) -> bool {
    forall|i: int| 0 <= i < v.len() ==> entry_wf(#[trigger] v[i])
}

/// The uniform storage contract: what both backends promise of insert, get,
/// remove, iteration and the expiration sweep. The backends differ only in
/// where `insert` places a fresh key in the iteration order.
pub trait Storage: Sized {
    /// The entries in iteration order.
    spec fn entries(&self) -> Entries;

    /// The backend's internal invariant.
    spec fn wf(&self) -> bool;

    /// Every well-formed backend keeps its keys unique.
    proof fn lemma_wf_unique(&self)
        requires
            self.wf(),
        ensures
            keys_unique(self.entries()),
    ;

    /// Compresses and stores, overwriting any prior entry for the key.
    fn insert(&mut self, key: &str, value: ValueWithTTL)
        requires
            old(self).wf(),
            codec_ok(value@),
        ensures
            final(self).wf(),
            lookup_entry(final(self).entries(), key@) == Some(value@),
            forall|k: Seq<char>|
                k != key@ ==> #[trigger] lookup_entry(final(self).entries(), k) == lookup_entry(
                    old(self).entries(),
                    k,
                ),
            final(self).entries().len() == old(self).entries().len() + (if has_key(
                old(self).entries(),
                key@,
            ) {
                0int
            } else {
                1int
            }),
    ;

    /// Decompresses and returns the current stored value, regardless of its
    /// expiration state: expiration is the caller's read-time policy.
    fn get(&self, key: &str) -> (r: Option<ValueWithTTL>)
        requires
            self.wf(),
        ensures
            match lookup_entry(self.entries(), key@) {
                Some(wv) => r matches Some(w) && w@ == wv,
                None => r is None,
            },
    ;

    /// Removes and returns the prior value under the key, if any.
    fn remove(&mut self, key: &str) -> (r: Option<ValueWithTTL>)
        requires
            old(self).wf(),
        ensures
            final(self).wf(),
            lookup_entry(final(self).entries(), key@) is None,
            forall|k: Seq<char>|
                k != key@ ==> #[trigger] lookup_entry(final(self).entries(), k) == lookup_entry(
                    old(self).entries(),
                    k,
                ),
            match lookup_entry(old(self).entries(), key@) {
                Some(wv) => r matches Some(w) && w@ == wv && final(self).entries().len() == old(
                    self,
                ).entries().len() - 1,
                None => r is None && final(self).entries() == old(self).entries(),
            },
    ;

    /// A fresh decompression pass over all entries, in iteration order.
    fn iter(&self) -> (r: Vec<(String, ValueWithTTL)>)
        requires
            self.wf(),
        ensures
            r@.map(|i: int, p: (String, ValueWithTTL)| (p.0@, p.1@)) == self.entries(),
    ;

    /// Removes every entry expired at `now`; entries without an expiration
    /// instant are never removed.
    fn remove_expired(&mut self, now: u64)
        requires
            old(self).wf(),
        ensures
            final(self).wf(),
            final(self).entries() == sweep(old(self).entries(), now),
    ;
}

// ---------------------------------------------------------------------------
// Shared executable plumbing for the two Vec-backed backends.
// ---------------------------------------------------------------------------

/// The position of the slot holding the key, scanning in order.
pub(crate) fn find_key(slots: &Vec<StoredEntry>, key: &str) -> (r: Option<usize>)
    ensures
        match r {
            Some(i) => i < slots@.len() && slots@[i as int].key@ == key@,
            None => forall|i: int| 0 <= i < slots@.len() ==> #[trigger] slots@[i].key@ != key@,
        },
{
    let n = slots.len();
    let mut i: usize = 0;
    while i < n
        invariant
            i <= n,
            n == slots@.len(),
            forall|j: int| 0 <= j < i ==> #[trigger] slots@[j].key@ != key@,
        decreases n - i,
    {
        let c = str_compare(slots[i].key.as_str(), key);
        proof {
            lemma_lex_props(slots@[i as int].key@, key@);
        }
        if matches!(c, Ordering::Equal) {
            return Some(i);
        }
        i = i + 1;
    }
    None
}

/// Decompresses the slot's value; the slot invariant makes failure
/// impossible.
pub(crate) fn read_slot(e: &StoredEntry) -> (r: ValueWithTTL)
    requires
        entry_wf(*e),
    ensures
        r@ == e.wrapped@,
{
    match decompress(e.bytes.as_slice()) {
        Ok(w) => w,
        Err(_) => {
            proof {
                assert(false);
            }
            ValueWithTTL { value: crate::types::Value::Null, expires_at: None }
        },
    }
}

/// Builds a slot: the key beside the compressed form of the value.
pub(crate) fn make_entry(key: &str, value: ValueWithTTL) -> (r: StoredEntry)
    requires
        codec_ok(value@),
    ensures
        entry_wf(r),
        r.key@ == key@,
        r.wrapped@ == value@,
{
    let ghost wv = value@;
    let bytes = compress(&value);
    StoredEntry { key: key.to_owned(), bytes, wrapped: Ghost(wv) }
}

/// The shared read path: find the slot, decompress it.
pub(crate) fn get_common(slots: &Vec<StoredEntry>, key: &str) -> (r: Option<ValueWithTTL>)
    requires
        slots_wf(slots@),
        keys_unique(store_view(slots@)),
    ensures
        match lookup_entry(store_view(slots@), key@) {
            Some(wv) => r matches Some(w) && w@ == wv,
            None => r is None,
        },
{
    let ghost es = store_view(slots@);
    match find_key(slots, key) {
        Some(i) => {
            proof {
                assert(es[i as int] == (slots@[i as int].key@, slots@[i as int].wrapped@));
                lemma_lookup_at(es, i as int);
            }
            Some(read_slot(&slots[i]))
        },
        None => {
            proof {
                if has_key(es, key@) {
                    let j = key_index(es, key@);
                    assert(slots@[j].key@ == key@);
                }
            }
            None
        },
    }
}

/// The shared removal path: find the slot, take it out, decompress it.
pub(crate) fn remove_common(slots: &mut Vec<StoredEntry>, key: &str) -> (r: Option<ValueWithTTL>)
    requires
        slots_wf(old(slots)@),
        keys_unique(store_view(old(slots)@)),
    ensures
        slots_wf(final(slots)@),
        keys_unique(store_view(final(slots)@)),
        keys_sorted(store_view(old(slots)@)) ==> keys_sorted(store_view(final(slots)@)),
        lookup_entry(store_view(final(slots)@), key@) is None,
        forall|k: Seq<char>|
            k != key@ ==> #[trigger] lookup_entry(store_view(final(slots)@), k) == lookup_entry(
                store_view(old(slots)@),
                k,
            ),
        match lookup_entry(store_view(old(slots)@), key@) {
            Some(wv) => r matches Some(w) && w@ == wv && store_view(final(slots)@).len()
                == store_view(old(slots)@).len() - 1,
            None => r is None && store_view(final(slots)@) == store_view(old(slots)@),
        },
{
    let ghost es = store_view(slots@);
    match find_key(slots, key) {
        Some(i) => {
            proof {
                assert(es[i as int] == (slots@[i as int].key@, slots@[i as int].wrapped@));
                lemma_lookup_at(es, i as int);
                lemma_view_remove(es, i as int);
            }
            let e = slots.remove(i);
            proof {
                assert(store_view(slots@) =~= es.remove(i as int));
            }
            Some(read_slot(&e))
        },
        None => {
            proof {
                if has_key(es, key@) {
                    let j = key_index(es, key@);
                    assert(slots@[j].key@ == key@);
                }
            }
            None
        },
    }
}

/// The shared iteration path: a fresh decompression pass over all slots.
pub(crate) fn iter_common(slots: &Vec<StoredEntry>) -> (r: Vec<(String, ValueWithTTL)>)
    requires
        slots_wf(slots@),
    ensures
        r@.map(|i: int, p: (String, ValueWithTTL)| (p.0@, p.1@)) == store_view(slots@),
{
    let n = slots.len();
    let mut out: Vec<(String, ValueWithTTL)> = Vec::new();
    let mut i: usize = 0;
    while i < n
        invariant
            i <= n,
            n == slots@.len(),
            slots_wf(slots@),
            out@.len() == i,
            forall|j: int|
                0 <= j < i ==> (#[trigger] out@[j].0@, out@[j].1@) == store_view(slots@)[j],
        decreases n - i,
    {
        let w = read_slot(&slots[i]);
        out.push((slots[i].key.clone(), w));
        i = i + 1;
    }
    proof {
        assert(out@.map(|i: int, p: (String, ValueWithTTL)| (p.0@, p.1@)) =~= store_view(slots@));
    }
    out
}

/// The shared sweep path: keep exactly the slots that are not expired at
/// `now`, in order.
pub(crate) fn sweep_common(slots: &mut Vec<StoredEntry>, now: u64)
    requires
        slots_wf(old(slots)@),
    ensures
        slots_wf(final(slots)@),
        store_view(final(slots)@) == sweep(store_view(old(slots)@), now),
{
    let ghost es = store_view(slots@);
    let n = slots.len();
    let mut kept: Vec<StoredEntry> = Vec::new();
    let mut i: usize = 0;
    proof {
        assert(es.take(0) =~= Seq::empty());
        assert(store_view(kept@) =~= sweep(es.take(0), now));
    }
    while i < n
        invariant
            i <= n,
            n == slots@.len(),
            slots_wf(slots@),
            es == store_view(slots@),
            slots_wf(kept@),
            store_view(kept@) == sweep(es.take(i as int), now),
        decreases n - i,
    {
        let w = read_slot(&slots[i]);
        proof {
            lemma_sweep_push(es.take(i as int), es[i as int], now);
            assert(es.take(i + 1) =~= es.take(i as int).push(es[i as int]));
        }
        if !w.is_expired_at(now) {
            let e2 = StoredEntry {
                key: slots[i].key.clone(),
                bytes: vstd::slice::slice_to_vec(slots[i].bytes.as_slice()),
                wrapped: Ghost(slots@[i as int].wrapped@),
            };
            kept.push(e2);
            proof {
                assert(store_view(kept@) =~= sweep(es.take(i + 1), now));
            }
        } else {
            proof {
                assert(store_view(kept@) =~= sweep(es.take(i + 1), now));
            }
        }
        i = i + 1;
    }
    proof {
        assert(es.take(n as int) =~= es);
    }
    *slots = kept;
}

} // verus!
