use vstd::prelude::*;
use core::cmp::Ordering;
use crate::storage::{
    get_common, has_key, iter_common, keys_sorted, lemma_lookup_at, lemma_sorted_unique,
    lemma_sweep_props, lemma_view_insert, lemma_view_update, make_entry, remove_common, store_view,
    sweep_common, Entries, Storage, StoredEntry,
};
use crate::types::{lemma_lex_props, lemma_lex_trans, lex_cmp, str_compare, ValueWithTTL, WrappedView};

verus! {

/// The ordered backend: entries are kept — and therefore iterated — in
/// strictly ascending key order.
pub struct BTreeStorage {
    pub slots: Vec<StoredEntry>,
}

impl BTreeStorage {
    /// An empty ordered backend.
    pub fn new() -> (r: BTreeStorage)
        ensures
            r.wf(),
            r.entries() == Seq::<(Seq<char>, WrappedView)>::empty(),
    {
        let r = BTreeStorage { slots: Vec::new() };
        proof {
            assert(store_view(r.slots@) =~= Seq::<(Seq<char>, WrappedView)>::empty());
        }
        r
    }
}

impl Storage for BTreeStorage {
    open spec fn entries(&self) -> Entries {
        store_view(self.slots@)
    }

    open spec fn wf(&self) -> bool {
        crate::storage::slots_wf(self.slots@) && keys_sorted(store_view(self.slots@))
    }

    proof fn lemma_wf_unique(&self) {
        lemma_sorted_unique(self.entries());
    }

    #[verifier::rlimit(80)]
    fn insert(&mut self, key: &str, value: ValueWithTTL) {
        proof {
            lemma_sorted_unique(store_view(self.slots@));
        }
        let ghost es = store_view(self.slots@);
        let ghost p = (key@, value@);
        let e = make_entry(key, value);
        let n = self.slots.len();
        let mut i: usize = 0;
        let mut stop = false;
        while !stop
            invariant
                i <= n,
                n == self.slots@.len(),
                es == store_view(self.slots@),
                forall|j: int| 0 <= j < i ==> lex_cmp(#[trigger] es[j].0, key@) == Ordering::Less,
                stop ==> i == n || lex_cmp(es[i as int].0, key@) != Ordering::Less,
            decreases n - i + (if stop { 0int } else { 1int }),
        {
            if i == n {
                stop = true;
            } else {
                let c = str_compare(self.slots[i].key.as_str(), key);
                if matches!(c, Ordering::Less) {
                    i = i + 1;
                } else {
                    stop = true;
                }
            }
        }
        if i < n && matches!(str_compare(self.slots[i].key.as_str(), key), Ordering::Equal) {
            proof {
                lemma_lex_props(es[i as int].0, key@);
                assert(es[i as int].0 == key@);
                lemma_lookup_at(es, i as int);
                lemma_view_update(es, i as int, p);
            }
            self.slots.set(i, e);
            proof {
                assert(store_view(self.slots@) =~= es.update(i as int, p));
            }
        } else {
            proof {
                if i < n {
                    lemma_lex_props(es[i as int].0, key@);
                    lemma_lex_props(key@, es[i as int].0);
                    assert(lex_cmp(es[i as int].0, key@) == Ordering::Greater);
                    assert(lex_cmp(key@, es[i as int].0) == Ordering::Less);
                }
                assert forall|j: int| 0 <= j < es.len() implies es[j].0 != key@ by {
                    if j < i {
                        lemma_lex_props(es[j].0, key@);
                    } else if j == i {
                        lemma_lex_props(es[j].0, key@);
                    } else {
                        // a key equal to the probe would sit above a greater
                        // entry, against the sort order
                        if es[j].0 == key@ {
                            assert(lex_cmp(es[i as int].0, es[j].0) == Ordering::Less);
                            assert(false);
                        }
                    }
                }
                assert(!has_key(es, key@));
                lemma_view_insert(es, i as int, p);
                let es2 = es.insert(i as int, p);
                assert forall|j1: int, j2: int| 0 <= j1 < j2 < es2.len() implies lex_cmp(
                    es2[j1].0,
                    es2[j2].0,
                ) == Ordering::Less by {
                    let o1: int = if j1 < i {
                        j1
                    } else {
                        j1 - 1
                    };
                    let o2: int = if j2 < i {
                        j2
                    } else {
                        j2 - 1
                    };
                    if j1 != i && j2 != i {
                        assert(es2[j1] == es[o1] && es2[j2] == es[o2]);
                    } else if j1 == i {
                        assert(es2[j1] == p && es2[j2] == es[o2] && i <= o2);
                        if o2 > i {
                            lemma_lex_trans(key@, es[i as int].0, es[o2].0);
                        }
                    } else {
                        assert(es2[j1] == es[o1] && o1 < i && es2[j2] == p);
                    }
                }
            }
            self.slots.insert(i, e);
            proof {
                assert(store_view(self.slots@) =~= es.insert(i as int, p));
            }
        }
    }

    fn get(&self, key: &str) -> (r: Option<ValueWithTTL>) {
        proof {
            lemma_sorted_unique(store_view(self.slots@));
        }
        get_common(&self.slots, key)
    }

    fn remove(&mut self, key: &str) -> (r: Option<ValueWithTTL>) {
        proof {
            lemma_sorted_unique(store_view(self.slots@));
        }
        remove_common(&mut self.slots, key)
    }

    fn iter(&self) -> (r: Vec<(String, ValueWithTTL)>) {
        iter_common(&self.slots)
    }

    fn remove_expired(&mut self, now: u64) {
        proof {
            lemma_sweep_props(store_view(self.slots@), now);
        }
        sweep_common(&mut self.slots, now);
    }
}

} // verus!
