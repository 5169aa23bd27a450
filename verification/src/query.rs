use vstd::prelude::*;
use core::cmp::Ordering;
use crate::storage::{Entries, Storage};
use crate::types::{lemma_lex_props, str_compare, value_cmp, Value, ValueView};

verus! {

// ---------------------------------------------------------------------------
// The query language: a query is a conjunction of conditions, each naming a
// storage key, an operator and a literal. A record (key, value) satisfies a
// condition only if the named key is that record's key and the operator holds
// between the record's value and the literal under the value model's partial
// order — incomparable means "not satisfied", never an error. A record passes
// only if every condition in the list matches it, so conditions naming two
// different keys can never both hold of one record, and such a query returns
// nothing by construction.
// ---------------------------------------------------------------------------

/// One condition: a key, an operator (the variant), and a literal.
pub enum QueryCondition {
    Equals(String, Value),
    NotEquals(String, Value),
    GreaterThan(String, Value),
    GreaterThanOrEqual(String, Value),
    LessThan(String, Value),
    LessThanOrEqual(String, Value),
}

/// The mathematical shape of a [`QueryCondition`].
pub enum CondView {
    Equals(Seq<char>, ValueView),
    NotEquals(Seq<char>, ValueView),
    GreaterThan(Seq<char>, ValueView),
    GreaterThanOrEqual(Seq<char>, ValueView),
    LessThan(Seq<char>, ValueView),
    LessThanOrEqual(Seq<char>, ValueView),
}

impl View for QueryCondition {
    type V = CondView;

    open spec fn view(&self) -> CondView {
        match self {
            QueryCondition::Equals(k, v) => CondView::Equals(k@, v@),
            QueryCondition::NotEquals(k, v) => CondView::NotEquals(k@, v@),
            QueryCondition::GreaterThan(k, v) => CondView::GreaterThan(k@, v@),
            QueryCondition::GreaterThanOrEqual(k, v) => CondView::GreaterThanOrEqual(k@, v@),
            QueryCondition::LessThan(k, v) => CondView::LessThan(k@, v@),
            QueryCondition::LessThanOrEqual(k, v) => CondView::LessThanOrEqual(k@, v@),
        }
    }
}

impl DeepView for QueryCondition {
    type V = CondView;

    open spec fn deep_view(&self) -> CondView {
        self@
    }
}

/// Whether one condition holds of the record (key, value).
pub open spec fn cond_matches(c: CondView, key: Seq<char>, value: ValueView) -> bool {
    match c {
        CondView::Equals(k, v) => key == k && value == v,
        CondView::NotEquals(k, v) => key == k && value != v,
        CondView::GreaterThan(k, v) => key == k && value_cmp(value, v) == Some(Ordering::Greater),
        CondView::GreaterThanOrEqual(k, v) => key == k && (value_cmp(value, v) == Some(
            Ordering::Greater,
        ) || value_cmp(value, v) == Some(Ordering::Equal)),
        CondView::LessThan(k, v) => key == k && value_cmp(value, v) == Some(Ordering::Less),
        CondView::LessThanOrEqual(k, v) => key == k && (value_cmp(value, v) == Some(Ordering::Less)
            || value_cmp(value, v) == Some(Ordering::Equal)),
    }
}

/// The key a condition names.
pub open spec fn cond_key(c: CondView) -> Seq<char> {
    match c {
        CondView::Equals(k, _) => k,
        CondView::NotEquals(k, _) => k,
        CondView::GreaterThan(k, _) => k,
        CondView::GreaterThanOrEqual(k, _) => k,
        CondView::LessThan(k, _) => k,
        CondView::LessThanOrEqual(k, _) => k,
    }
}

/// A condition holds of a record only when the record's key is the one the
/// condition names.
pub proof fn lemma_cond_matches_key(c: CondView, key: Seq<char>, value: ValueView)
    requires
        cond_matches(c, key, value),
    ensures
        key == cond_key(c),
{
}

/// Whether every condition of the conjunction holds of the record.
pub open spec fn query_matches(cs: Seq<CondView>, key: Seq<char>, value: ValueView) -> bool {
    forall|i: int| 0 <= i < cs.len() ==> cond_matches(#[trigger] cs[i], key, value)
}

/// The values of the entries that pass the query, in entry order, without
/// deduplication.
pub open spec fn query_results(cs: Seq<CondView>, es: Entries) -> Seq<ValueView>
    decreases es.len(),
{
    if es.len() == 0 {
        Seq::empty()
    } else if query_matches(cs, es[0].0, es[0].1.value) {
        seq![es[0].1.value] + query_results(cs, es.drop_first())
    } else {
        query_results(cs, es.drop_first())
    }
}

/// Extending the entries extends the results by the new entry's value when
/// it passes.
pub proof fn lemma_query_results_push(cs: Seq<CondView>, es: Entries, p: (Seq<char>, crate::types::WrappedView))
    ensures
        query_results(cs, es.push(p)) == if query_matches(cs, p.0, p.1.value) {
            query_results(cs, es).push(p.1.value)
        } else {
            query_results(cs, es)
        },
    decreases es.len(),
{
    if es.len() == 0 {
        assert(es.push(p)[0] == p);
        assert(es.push(p).drop_first() =~= Seq::empty());
        assert(query_results(cs, Seq::empty()) =~= Seq::<ValueView>::empty());
        if query_matches(cs, p.0, p.1.value) {
            assert(query_results(cs, es.push(p)) =~= query_results(cs, es).push(p.1.value));
        } else {
            assert(query_results(cs, es.push(p)) =~= query_results(cs, es));
        }
    } else {
        lemma_query_results_push(cs, es.drop_first(), p);
        assert(es.push(p).drop_first() =~= es.drop_first().push(p));
        assert(es.push(p)[0] == es[0]);
        if query_matches(cs, es[0].0, es[0].1.value) {
            if query_matches(cs, p.0, p.1.value) {
                assert(query_results(cs, es.push(p)) =~= query_results(cs, es).push(p.1.value));
            } else {
                assert(query_results(cs, es.push(p)) =~= query_results(cs, es));
            }
        }
    }
}

/// An ordered conjunction of conditions.
pub struct Query {
    pub conditions: Vec<QueryCondition>,
}

impl View for Query {
    type V = Seq<CondView>;

    open spec fn view(&self) -> Seq<CondView> {
        self.conditions.deep_view()
    }
}

impl Query {
    /// The empty conjunction, which every record passes.
    pub fn new() -> (r: Query)
        ensures
            r@ == Seq::<CondView>::empty(),
    {
        let r = Query { conditions: Vec::new() };
        proof {
            assert(r@ =~= Seq::<CondView>::empty());
        }
        r
    }

    /// Appends one condition to the conjunction.
    pub fn add_condition(&mut self, condition: QueryCondition)
        ensures
            final(self)@ == old(self)@.push(condition@),
    {
        let ghost c = condition@;
        self.conditions.push(condition);
        proof {
            assert(self@ =~~= old(self)@.push(c));
        }
    }

    /// Whether every condition of this query holds of the record
    /// (key, value).
    pub fn matches(&self, key: &str, value: &Value) -> (r: bool)
        ensures
            r == query_matches(self@, key@, value@),
    {
        let ghost cs = self@;
        let n = self.conditions.len();
        let mut i: usize = 0;
        while i < n
            invariant
                i <= n,
                n == self.conditions@.len(),
                cs == self@,
                forall|j: int| 0 <= j < i ==> cond_matches(#[trigger] cs[j], key@, value@),
            decreases n - i,
        {
            let (k, v) = match &self.conditions[i] {
                QueryCondition::Equals(k, v) => (k, v),
                QueryCondition::NotEquals(k, v) => (k, v),
                QueryCondition::GreaterThan(k, v) => (k, v),
                QueryCondition::GreaterThanOrEqual(k, v) => (k, v),
                QueryCondition::LessThan(k, v) => (k, v),
                QueryCondition::LessThanOrEqual(k, v) => (k, v),
            };
            let key_hit = matches!(str_compare(k.as_str(), key), Ordering::Equal);
            proof {
                lemma_lex_props(k@, key@);
            }
            let cmp = value.partial_cmp(v);
            let op_hit = match &self.conditions[i] {
                QueryCondition::Equals(_, v2) => value == v2,
                QueryCondition::NotEquals(_, v2) => !(value == v2),
                QueryCondition::GreaterThan(_, _) => matches!(cmp, Some(Ordering::Greater)),
                QueryCondition::GreaterThanOrEqual(_, _) => matches!(
                    cmp,
                    Some(Ordering::Greater) | Some(Ordering::Equal),
                ),
                QueryCondition::LessThan(_, _) => matches!(cmp, Some(Ordering::Less)),
                QueryCondition::LessThanOrEqual(_, _) => matches!(
                    cmp,
                    Some(Ordering::Less) | Some(Ordering::Equal),
                ),
            };
            if !(key_hit && op_hit) {
                proof {
                    assert(!cond_matches(cs[i as int], key@, value@));
                }
                return false;
            }
            i = i + 1;
        }
        true
    }

    /// Runs the conjunction over a backend's current entries, in that
    /// backend's iteration order.
    pub fn execute<S: Storage>(&self, storage: &S) -> (r: Vec<Value>)
        requires
            storage.wf(),
        ensures
            r.deep_view() == query_results(self@, storage.entries()),
    {
        let ghost cs = self@;
        let ghost es = storage.entries();
        let records = storage.iter();
        let ghost rv = records@.map(|i: int, p: (String, crate::types::ValueWithTTL)| (p.0@, p.1@));
        let n = records.len();
        let mut out: Vec<Value> = Vec::new();
        let mut i: usize = 0;
        proof {
            assert(es.take(0) =~= Seq::empty());
            assert(out.deep_view() =~= query_results(cs, es.take(0)));
        }
        while i < n
            invariant
                i <= n,
                n == records@.len(),
                cs == self@,
                rv == records@.map(|i: int, p: (String, crate::types::ValueWithTTL)| (p.0@, p.1@)),
                es == rv,
                out.deep_view() == query_results(cs, es.take(i as int)),
            decreases n - i,
        {
            proof {
                assert(es[i as int] == (records@[i as int].0@, records@[i as int].1@));
                lemma_query_results_push(cs, es.take(i as int), es[i as int]);
                assert(es.take(i + 1) =~= es.take(i as int).push(es[i as int]));
            }
            if self.matches(records[i].0.as_str(), &records[i].1.value) {
                out.push(records[i].1.value.clone());
                proof {
                    assert(out.deep_view() =~~= query_results(cs, es.take(i + 1)));
                }
            } else {
                proof {
                    assert(out.deep_view() =~~= query_results(cs, es.take(i + 1)));
                }
            }
            i = i + 1;
        }
        proof {
            assert(es.take(n as int) =~= es);
        }
        out
    }
}

} // verus!
