use vstd::prelude::*;
use crate::storage::{
    find_key, get_common, has_key, iter_common, key_index, keys_unique, lemma_lookup_at,
    lemma_sweep_props, lemma_view_insert, lemma_view_update, make_entry, remove_common, store_view,
    sweep_common, Entries, Storage, StoredEntry,
};
use crate::types::{ValueWithTTL, WrappedView};

verus! {

/// The unordered backend: entries are kept in insertion order, which callers
/// must treat as unspecified.
pub struct HashMapStorage {
    pub slots: Vec<StoredEntry>,
}

impl HashMapStorage {
    /// An empty unordered backend.
    pub fn new() -> (r: HashMapStorage)
        ensures
            r.wf(),
            r.entries() == Seq::<(Seq<char>, WrappedView)>::empty(),
    {
        let r = HashMapStorage { slots: Vec::new() };
        proof {
            assert(store_view(r.slots@) =~= Seq::<(Seq<char>, WrappedView)>::empty());
        }
        r
    }
}

impl Storage for HashMapStorage {
    open spec fn entries(&self) -> Entries {
        store_view(self.slots@)
    }

    open spec fn wf(&self) -> bool {
        crate::storage::slots_wf(self.slots@) && keys_unique(store_view(self.slots@))
    }

    proof fn lemma_wf_unique(&self) {
    }

    fn insert(&mut self, key: &str, value: ValueWithTTL) {
        let ghost es = store_view(self.slots@);
        let ghost p = (key@, value@);
        let e = make_entry(key, value);
        match find_key(&self.slots, key) {
            Some(i) => {
                proof {
                    assert(es[i as int] == (self.slots@[i as int].key@, self.slots@[i as int].wrapped@));
                    lemma_lookup_at(es, i as int);
                    lemma_view_update(es, i as int, p);
                }
                self.slots.set(i, e);
                proof {
                    assert(store_view(self.slots@) =~= es.update(i as int, p));
                }
            },
            None => {
                proof {
                    if has_key(es, key@) {
                        let j = key_index(es, key@);
                        assert(self.slots@[j].key@ == key@);
                    }
                    lemma_view_insert(es, es.len() as int, p);
                }
                self.slots.push(e);
                proof {
                    assert(store_view(self.slots@) =~= es.insert(es.len() as int, p));
                }
            },
        }
    }

    fn get(&self, key: &str) -> (r: Option<ValueWithTTL>) {
        get_common(&self.slots, key)
    }

    fn remove(&mut self, key: &str) -> (r: Option<ValueWithTTL>) {
        remove_common(&mut self.slots, key)
    }

    fn iter(&self) -> (r: Vec<(String, ValueWithTTL)>) {
        iter_common(&self.slots)
    }

    fn remove_expired(&mut self, now: u64) {
        proof {
            lemma_sweep_props(store_view(self.slots@), now);
        }
        sweep_common(&mut self.slots, now);
    }
}

} // verus!
