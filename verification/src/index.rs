use vstd::prelude::*;
use core::cmp::Ordering;
use crate::types::{lemma_lex_props, str_compare, Value, ValueView};

verus! {

// ---------------------------------------------------------------------------
// The secondary index: for each value, the keys currently holding it. A
// bucket exists only while it is non-empty, and no value owns two buckets.
// Keeping the index consistent with storage is the caller's burden: every
// storage mutation must issue the matching index mutation.
// ---------------------------------------------------------------------------

/// The logical content of the index: one bucket per value, each a sequence
/// of keys.
pub type Buckets = Seq<(ValueView, Seq<Seq<char>>)>;

/// Whether some bucket is keyed by the value.
pub open spec fn has_value(bs: Buckets, v: ValueView) -> bool {
    exists|i: int| 0 <= i < bs.len() && bs[i].0 == v
}

/// The position of the value's bucket; meaningful under unique values.
pub open spec fn value_index(bs: Buckets, v: ValueView) -> int {
    choose|i: int| 0 <= i < bs.len() && bs[i].0 == v
}

/// The keys holding a value, if any bucket exists for it.
pub open spec fn bucket_lookup(bs: Buckets, v: ValueView) -> Option<Seq<Seq<char>>> {
    if has_value(bs, v) {
        Some(bs[value_index(bs, v)].1)
    } else {
        None
    }
}

/// The index invariant: no value owns two buckets, and no bucket is empty.
pub open spec fn index_wf(bs: Buckets) -> bool {
    (forall|i: int, j: int| 0 <= i < j < bs.len() ==> bs[i].0 != bs[j].0) && (forall|i: int|
        0 <= i < bs.len() ==> #[trigger] bs[i].1.len() > 0)
}

/// A key sequence with every occurrence of one key struck out.
pub open spec fn remove_key(ks: Seq<Seq<char>>, k: Seq<char>) -> Seq<Seq<char>>
    decreases ks.len(),
{
    if ks.len() == 0 {
        Seq::empty()
    } else if ks[0] == k {
        remove_key(ks.drop_first(), k)
    } else {
        seq![ks[0]] + remove_key(ks.drop_first(), k)
    }
}

/// Striking a key out of an extended sequence extends the struck sequence.
pub proof fn lemma_remove_key_push(ks: Seq<Seq<char>>, x: Seq<char>, k: Seq<char>)
    ensures
        remove_key(ks.push(x), k) == if x == k {
            remove_key(ks, k)
        } else {
            remove_key(ks, k).push(x)
        },
    decreases ks.len(),
{
    if ks.len() == 0 {
        assert(ks.push(x)[0] == x);
        assert(ks.push(x).drop_first() =~= Seq::<Seq<char>>::empty());
        assert(remove_key(Seq::empty(), k) =~= Seq::<Seq<char>>::empty());
        if x == k {
            assert(remove_key(ks.push(x), k) =~= remove_key(ks, k));
        } else {
            assert(remove_key(ks.push(x), k) =~= remove_key(ks, k).push(x));
        }
    } else {
        lemma_remove_key_push(ks.drop_first(), x, k);
        assert(ks.push(x).drop_first() =~= ks.drop_first().push(x));
        assert(ks.push(x)[0] == ks[0]);
        if ks[0] == k {
        } else {
            if x == k {
                assert(remove_key(ks.push(x), k) =~= remove_key(ks, k));
            } else {
                assert(remove_key(ks.push(x), k) =~= remove_key(ks, k).push(x));
            }
        }
    }
}

/// What remains after striking a key out: exactly the other keys, in order.
pub proof fn lemma_remove_key_membership(ks: Seq<Seq<char>>, k: Seq<char>)
    ensures
        forall|l: int| #![trigger remove_key(ks, k)[l]]
            0 <= l < remove_key(ks, k).len() ==> remove_key(ks, k)[l] != k && ks.contains(
                remove_key(ks, k)[l],
            ),
        forall|l: int| #![trigger ks[l]]
            0 <= l < ks.len() && ks[l] != k ==> remove_key(ks, k).contains(ks[l]),
    decreases ks.len(),
{
    if ks.len() == 0 {
    } else {
        let rest = ks.drop_first();
        lemma_remove_key_membership(rest, k);
        let rm = remove_key(ks, k);
        assert forall|l: int| 0 <= l < rm.len() implies #[trigger] rm[l] != k && ks.contains(
            rm[l],
        ) by {
            if ks[0] != k && l == 0 {
                assert(ks[0] == rm[0]);
            } else {
                let off: int = if ks[0] == k {
                    0
                } else {
                    1
                };
                assert(rm[l] == remove_key(rest, k)[l - off]);
                let m = choose|m: int| 0 <= m < rest.len() && rest[m] == rm[l];
                assert(ks[m + 1] == rm[l]);
            }
        }
        assert forall|l: int| 0 <= l < ks.len() && #[trigger] ks[l] != k implies remove_key(
            ks,
            k,
        ).contains(ks[l]) by {
            if l == 0 {
                assert(rm[0] == ks[0]);
            } else {
                assert(rest[l - 1] == ks[l]);
                assert(remove_key(rest, k).contains(ks[l]));
                let m = choose|m: int| 0 <= m < remove_key(rest, k).len() && remove_key(rest, k)[m] == ks[l];
                let off: int = if ks[0] == k {
                    0
                } else {
                    1
                };
                assert(rm[m + off] == ks[l]);
            }
        }
    }
}

/// Under unique values, the bucket at any position is what lookup finds for
/// its value.
pub proof fn lemma_bucket_at(bs: Buckets, i: int)
    requires
        forall|i1: int, j1: int| 0 <= i1 < j1 < bs.len() ==> bs[i1].0 != bs[j1].0,
        0 <= i < bs.len(),
    ensures
        bucket_lookup(bs, bs[i].0) == Some(bs[i].1),
        value_index(bs, bs[i].0) == i,
{
    assert(has_value(bs, bs[i].0));
    let j = value_index(bs, bs[i].0);
    if i != j {
        assert(false);
    }
}

/// The secondary index: value buckets over plain vectors.
pub struct Index {
    pub data: Vec<(Value, Vec<String>)>,
}

impl Index {
    /// The logical content: the buckets in their current order.
    pub open spec fn buckets(&self) -> Buckets {
        self.data@.map(|i: int, p: (Value, Vec<String>)| (p.0@, p.1.deep_view()))
    }

    /// The index invariant.
    pub open spec fn wf(&self) -> bool {
        index_wf(self.buckets())
    }

    /// An empty index.
    pub fn new() -> (r: Index)
        ensures
            r.wf(),
            r.buckets() == Seq::<(ValueView, Seq<Seq<char>>)>::empty(),
    {
        let r = Index { data: Vec::new() };
        proof {
            assert(r.buckets() =~= Seq::<(ValueView, Seq<Seq<char>>)>::empty());
        }
        r
    }

    /// The position of the value's bucket, if it exists.
    fn find_value(&self, value: &Value) -> (r: Option<usize>)
        ensures
            match r {
                Some(i) => i < self.buckets().len() && self.buckets()[i as int].0 == value@,
                None => !has_value(self.buckets(), value@),
            },
    {
        let ghost bs = self.buckets();
        let n = self.data.len();
        let mut i: usize = 0;
        while i < n
            invariant
                i <= n,
                n == self.data@.len(),
                bs == self.buckets(),
                forall|j: int| 0 <= j < i ==> #[trigger] bs[j].0 != value@,
            decreases n - i,
        {
            if self.data[i].0 == *value {
                return Some(i);
            }
            i = i + 1;
        }
        proof {
            if has_value(bs, value@) {
                let j = value_index(bs, value@);
                assert(bs[j].0 == value@);
            }
        }
        None
    }

    /// Appends the key to the value's bucket, creating the bucket if absent.
    pub fn insert(&mut self, key: &str, value: &Value)
        requires
            old(self).wf(),
        ensures
            final(self).wf(),
            bucket_lookup(final(self).buckets(), value@) == Some(
                match bucket_lookup(old(self).buckets(), value@) {
                    Some(ks) => ks.push(key@),
                    None => seq![key@],
                },
            ),
            forall|v: ValueView|
                v != value@ ==> #[trigger] bucket_lookup(final(self).buckets(), v) == bucket_lookup(
                    old(self).buckets(),
                    v,
                ),
    {
        let ghost bs = self.buckets();
        match self.find_value(value) {
            Some(i) => {
                proof {
                    lemma_bucket_at(bs, i as int);
                }
                let (v0, mut ks) = self.data.remove(i);
                ks.push(key.to_owned());
                self.data.insert(i, (v0, ks));
                proof {
                    let bs2 = self.buckets();
                    assert(bs2 =~~= bs.update(i as int, (bs[i as int].0, bs[i as int].1.push(key@))));
                    lemma_bucket_at(bs2, i as int);
                    assert forall|v: ValueView| v != value@ implies #[trigger] bucket_lookup(
                        bs2,
                        v,
                    ) == bucket_lookup(bs, v) by {
                        if has_value(bs, v) {
                            let j = value_index(bs, v);
                            assert(bs2[j].0 == v);
                            lemma_bucket_at(bs, j);
                            lemma_bucket_at(bs2, j);
                        } else {
                            if has_value(bs2, v) {
                                let j = value_index(bs2, v);
                                assert(bs[j].0 == v);
                            }
                        }
                    }
                }
            },
            None => {
                let mut ks: Vec<String> = Vec::new();
                ks.push(key.to_owned());
                self.data.push((value.clone(), ks));
                proof {
                    let bs2 = self.buckets();
                    assert(ks.deep_view() =~= seq![key@]);
                    assert(bs2 =~~= bs.push((value@, seq![key@])));
                    assert(forall|j: int| 0 <= j < bs.len() ==> #[trigger] bs2[j] == bs[j]);
                    lemma_bucket_at(bs2, bs.len() as int);
                    assert forall|v: ValueView| v != value@ implies #[trigger] bucket_lookup(
                        bs2,
                        v,
                    ) == bucket_lookup(bs, v) by {
                        if has_value(bs, v) {
                            let j = value_index(bs, v);
                            assert(bs2[j].0 == v);
                            lemma_bucket_at(bs, j);
                            lemma_bucket_at(bs2, j);
                        } else {
                            if has_value(bs2, v) {
                                let j = value_index(bs2, v);
                                assert(bs[j].0 == v);
                            }
                        }
                    }
                }
            },
        }
    }

    /// Strikes the key out of the value's bucket, deleting the bucket once
    /// empty: no empty bucket persists.
    pub fn remove(&mut self, key: &str, value: &Value)
        requires
            old(self).wf(),
        ensures
            final(self).wf(),
            bucket_lookup(final(self).buckets(), value@) == (match bucket_lookup(
                old(self).buckets(),
                value@,
            ) {
                Some(ks) => if remove_key(ks, key@).len() == 0 {
                    None
                } else {
                    Some(remove_key(ks, key@))
                },
                None => None,
            }),
            forall|v: ValueView|
                v != value@ ==> #[trigger] bucket_lookup(final(self).buckets(), v) == bucket_lookup(
                    old(self).buckets(),
                    v,
                ),
    {
        let ghost bs = self.buckets();
        match self.find_value(value) {
            Some(i) => {
                proof {
                    lemma_bucket_at(bs, i as int);
                }
                let (v0, ks) = self.data.remove(i);
                let ghost ksv = bs[i as int].1;
                let n = ks.len();
                let mut kept: Vec<String> = Vec::new();
                let mut l: usize = 0;
                proof {
                    assert(ksv.take(0) =~= Seq::empty());
                    assert(kept.deep_view() =~~= remove_key(ksv.take(0), key@));
                }
                while l < n
                    invariant
                        l <= n,
                        n == ks@.len(),
                        ksv == ks.deep_view(),
                        kept.deep_view() == remove_key(ksv.take(l as int), key@),
                    decreases n - l,
                {
                    let c = str_compare(ks[l].as_str(), key);
                    proof {
                        lemma_lex_props(ks@[l as int]@, key@);
                        lemma_remove_key_push(ksv.take(l as int), ksv[l as int], key@);
                        assert(ksv.take(l + 1) =~= ksv.take(l as int).push(ksv[l as int]));
                    }
                    if !matches!(c, Ordering::Equal) {
                        kept.push(ks[l].clone());
                        proof {
                            assert(kept.deep_view() =~~= remove_key(ksv.take(l + 1), key@));
                        }
                    }
                    l = l + 1;
                }
                proof {
                    assert(ksv.take(n as int) =~= ksv);
                }
                let ghost struck = remove_key(ksv, key@);
                if kept.len() == 0 {
                    proof {
                        let bs2 = self.buckets();
                        assert(bs2 =~~= bs.remove(i as int));
                        assert(forall|j: int| 0 <= j < i ==> #[trigger] bs2[j] == bs[j]);
                        assert(forall|j: int|
                            i <= j < bs2.len() ==> #[trigger] bs2[j] == bs[j + 1]);
                        if has_value(bs2, value@) {
                            let j = value_index(bs2, value@);
                            let o: int = if j < i {
                                j
                            } else {
                                j + 1
                            };
                            assert(bs[o].0 == value@);
                            assert(false);
                        }
                        assert forall|v: ValueView| v != value@ implies #[trigger] bucket_lookup(
                            bs2,
                            v,
                        ) == bucket_lookup(bs, v) by {
                            if has_value(bs, v) {
                                let j = value_index(bs, v);
                                let j2: int = if j < i {
                                    j
                                } else {
                                    j - 1
                                };
                                assert(bs2[j2].0 == v);
                                lemma_bucket_at(bs, j);
                                lemma_bucket_at(bs2, j2);
                            } else {
                                if has_value(bs2, v) {
                                    let j = value_index(bs2, v);
                                    let o: int = if j < i {
                                        j
                                    } else {
                                        j + 1
                                    };
                                    assert(bs[o].0 == v);
                                }
                            }
                        }
                        assert forall|i1: int, j1: int|
                            0 <= i1 < j1 < bs2.len() implies bs2[i1].0 != bs2[j1].0 by {
                            let o1: int = if i1 < i {
                                i1
                            } else {
                                i1 + 1
                            };
                            let o2: int = if j1 < i {
                                j1
                            } else {
                                j1 + 1
                            };
                            assert(bs2[i1] == bs[o1] && bs2[j1] == bs[o2]);
                        }
                    }
                } else {
                    self.data.insert(i, (v0, kept));
                    proof {
                        let bs2 = self.buckets();
                        assert(bs2 =~~= bs.update(i as int, (bs[i as int].0, struck)));
                        lemma_bucket_at(bs2, i as int);
                        assert forall|v: ValueView| v != value@ implies #[trigger] bucket_lookup(
                            bs2,
                            v,
                        ) == bucket_lookup(bs, v) by {
                            if has_value(bs, v) {
                                let j = value_index(bs, v);
                                assert(bs2[j].0 == v);
                                lemma_bucket_at(bs, j);
                                lemma_bucket_at(bs2, j);
                            } else {
                                if has_value(bs2, v) {
                                    let j = value_index(bs2, v);
                                    assert(bs[j].0 == v);
                                }
                            }
                        }
                    }
                }
            },
            None => {},
        }
    }

    /// The keys currently holding the value, in bucket order.
    pub fn get(&self, value: &Value) -> (r: Option<Vec<String>>)
        requires
            self.wf(),
        ensures
            match bucket_lookup(self.buckets(), value@) {
                Some(ks) => r matches Some(out) && out.deep_view() == ks,
                None => r is None,
            },
    {
        let ghost bs = self.buckets();
        match self.find_value(value) {
            Some(i) => {
                proof {
                    lemma_bucket_at(bs, i as int);
                }
                let src = &self.data[i].1;
                let n = src.len();
                let mut out: Vec<String> = Vec::new();
                let mut l: usize = 0;
                while l < n
                    invariant
                        l <= n,
                        n == src@.len(),
                        out@.len() == l,
                        forall|j: int| 0 <= j < l ==> #[trigger] out@[j]@ == src@[j]@,
                    decreases n - l,
                {
                    let s = src[l].clone();
                    proof {
                        assert(s@ == src@[l as int]@);
                    }
                    out.push(s);
                    l = l + 1;
                }
                proof {
                    assert(out.deep_view() =~~= src.deep_view());
                }
                Some(out)
            },
            None => None,
        }
    }
}

} // verus!
