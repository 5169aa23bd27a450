use vstd::prelude::*;
use vstd::string::StrSliceExecFns;
use core::cmp::Ordering;

verus! {

/// A stored datum: one of the five value shapes the store accepts.
///
/// A float is carried as the bit pattern of an IEEE 754 double (`f64::to_bits`
/// on the way in, `f64::from_bits` on the way out), so the value model and
/// everything proved about it stays in integer arithmetic. Equality is
/// structural — for floats, equality of the bit patterns — while ordering
/// between two floats follows the IEEE comparison (negative zero equals
/// positive zero; a NaN compares with nothing).
#[derive(Debug)]
pub enum Value {
    Null,
    Bool(bool),
    Int(i64),
    Float(u64),
    String(String),
}

/// The mathematical shape of a [`Value`]: the same five variants over
/// mathematical integers and character sequences.
pub enum ValueView {
    Null,
    Bool(bool),
    Int(int),
    Float(u64),
    Str(Seq<char>),
}

impl View for Value {
    type V = ValueView;

    open spec fn view(&self) -> ValueView {
        match self {
            Value::Null => ValueView::Null,
            Value::Bool(b) => ValueView::Bool(*b),
            Value::Int(i) => ValueView::Int(*i as int),
            Value::Float(bits) => ValueView::Float(*bits),
            Value::String(s) => ValueView::Str(s@),
        }
    }
}

impl DeepView for Value {
    type V = ValueView;

    open spec fn deep_view(&self) -> ValueView {
        self@
    }
}

// ---------------------------------------------------------------------------
// Ordering of values.
//
// Two values are comparable only within the same variant; comparing across
// variants yields no ordering, which the query evaluator treats as "condition
// not satisfied", never as an error.
// ---------------------------------------------------------------------------

/// Whether a double with these bits is a NaN: exponent all ones and a
/// non-zero mantissa.
pub open spec fn float_is_nan(bits: u64) -> bool {
    (bits >> 52) & 0x7ff == 0x7ff && (bits & 0xf_ffff_ffff_ffff) != 0
}

/// The magnitude part of a double: everything below the sign bit.
pub open spec fn float_magnitude(bits: u64) -> u64 {
    bits & 0x7fff_ffff_ffff_ffff
}

/// The position of a non-NaN double on the number line, as a signed key:
/// the magnitude, negated when the sign bit is set. Both zeros map to 0.
pub open spec fn float_key(bits: u64) -> int {
    if bits >> 63 == 1 {
        -(float_magnitude(bits) as int)
    } else {
        float_magnitude(bits) as int
    }
}

/// IEEE comparison of two doubles given as bit patterns: no order when either
/// is NaN, otherwise the order of their positions on the number line.
pub open spec fn float_cmp(a: u64, b: u64) -> Option<Ordering> {
    if float_is_nan(a) || float_is_nan(b) {
        None
    } else if float_key(a) < float_key(b) {
        Some(Ordering::Less)
    } else if float_key(a) == float_key(b) {
        Some(Ordering::Equal)
    } else {
        Some(Ordering::Greater)
    }
}

/// Lexicographic order of two character sequences, by code point.
pub open spec fn lex_cmp(a: Seq<char>, b: Seq<char>) -> Ordering
    decreases a.len(),
{
    if a.len() == 0 && b.len() == 0 {
        Ordering::Equal
    } else if a.len() == 0 {
        Ordering::Less
    } else if b.len() == 0 {
        Ordering::Greater
    } else if a[0] < b[0] {
        Ordering::Less
    } else if a[0] > b[0] {
        Ordering::Greater
    } else {
        lex_cmp(a.drop_first(), b.drop_first())
    }
}

/// Lexicographic comparison is an order: it reports equality exactly on
/// equal sequences, and it is antisymmetric.
pub proof fn lemma_lex_props(a: Seq<char>, b: Seq<char>)
    ensures
        (lex_cmp(a, b) == Ordering::Equal) <==> a == b,
        (lex_cmp(a, b) == Ordering::Less) <==> (lex_cmp(b, a) == Ordering::Greater),
    decreases a.len() + b.len(),
{
    if a.len() == 0 && b.len() == 0 {
        assert(a =~= b);
    } else if a.len() == 0 || b.len() == 0 {
    } else {
        lemma_lex_props(a.drop_first(), b.drop_first());
        if a[0] == b[0] {
            if lex_cmp(a, b) == Ordering::Equal {
                assert(a.drop_first() == b.drop_first());
                assert forall|i: int| 0 <= i < a.len() implies a[i] == b[i] by {
                    if i > 0 {
                        assert(a[i] == a.drop_first()[i - 1]);
                        assert(b[i] == b.drop_first()[i - 1]);
                    }
                }
                assert(a =~= b);
            }
            if a == b {
                assert(a.drop_first() =~= b.drop_first());
            }
        }
    }
}

/// Lexicographic comparison is transitive.
pub proof fn lemma_lex_trans(a: Seq<char>, b: Seq<char>, c: Seq<char>)
    requires
        lex_cmp(a, b) == Ordering::Less,
        lex_cmp(b, c) == Ordering::Less,
    ensures
        lex_cmp(a, c) == Ordering::Less,
    decreases a.len() + b.len() + c.len(),
{
    if a.len() == 0 {
    } else {
        if a[0] == b[0] && b[0] == c[0] {
            lemma_lex_trans(a.drop_first(), b.drop_first(), c.drop_first());
        }
    }
}

/// The partial order on values: defined within one variant, absent across
/// variants. Booleans order false before true; strings lexicographically;
/// floats by IEEE rules.
pub open spec fn value_cmp(a: ValueView, b: ValueView) -> Option<Ordering> {
    match (a, b) {
        (ValueView::Null, ValueView::Null) => Some(Ordering::Equal),
        (ValueView::Bool(x), ValueView::Bool(y)) => if x == y {
            Some(Ordering::Equal)
        } else if !x {
            Some(Ordering::Less)
        } else {
            Some(Ordering::Greater)
        },
        (ValueView::Int(x), ValueView::Int(y)) => if x < y {
            Some(Ordering::Less)
        } else if x == y {
            Some(Ordering::Equal)
        } else {
            Some(Ordering::Greater)
        },
        (ValueView::Float(x), ValueView::Float(y)) => float_cmp(x, y),
        (ValueView::Str(x), ValueView::Str(y)) => Some(lex_cmp(x, y)),
        _ => None,
    }
}

/// IEEE comparison of two doubles, executed on their bit patterns.
pub fn float_bits_cmp(a: u64, b: u64) -> (r: Option<Ordering>)
    ensures
        r == float_cmp(a, b),
{
    let nan_a = (a >> 52) & 0x7ff == 0x7ff && (a & 0xf_ffff_ffff_ffff) != 0;
    let nan_b = (b >> 52) & 0x7ff == 0x7ff && (b & 0xf_ffff_ffff_ffff) != 0;
    if nan_a || nan_b {
        None
    } else {
        let neg_a = a >> 63 == 1;
        let neg_b = b >> 63 == 1;
        let mag_a = a & 0x7fff_ffff_ffff_ffff;
        let mag_b = b & 0x7fff_ffff_ffff_ffff;
        if neg_a && neg_b {
            if mag_b < mag_a {
                Some(Ordering::Less)
            } else if mag_a == mag_b {
                Some(Ordering::Equal)
            } else {
                Some(Ordering::Greater)
            }
        } else if !neg_a && !neg_b {
            if mag_a < mag_b {
                Some(Ordering::Less)
            } else if mag_a == mag_b {
                Some(Ordering::Equal)
            } else {
                Some(Ordering::Greater)
            }
        } else if neg_a {
            // a is on the negative side, b on the positive: a precedes b
            // unless both are zeros of opposite sign.
            if mag_a == 0 && mag_b == 0 {
                Some(Ordering::Equal)
            } else {
                Some(Ordering::Less)
            }
        } else {
            if mag_a == 0 && mag_b == 0 {
                Some(Ordering::Equal)
            } else {
                Some(Ordering::Greater)
            }
        }
    }
}

/// Lexicographic comparison of two strings, by code point.
pub fn str_compare(a: &str, b: &str) -> (r: Ordering)
    ensures
        r == lex_cmp(a@, b@),
{
    let len_a = a.unicode_len();
    let len_b = b.unicode_len();
    let mut i: usize = 0;
    proof {
        assert(a@.skip(0) =~= a@);
        assert(b@.skip(0) =~= b@);
    }
    loop
        invariant
            i <= len_a,
            i <= len_b,
            len_a == a@.len(),
            len_b == b@.len(),
            lex_cmp(a@, b@) == lex_cmp(a@.skip(i as int), b@.skip(i as int)),
        decreases len_a - i,
    {
        if i == len_a && i == len_b {
            return Ordering::Equal;
        } else if i == len_a {
            return Ordering::Less;
        } else if i == len_b {
            return Ordering::Greater;
        }
        let ca = a.get_char(i);
        let cb = b.get_char(i);
        if ca < cb {
            return Ordering::Less;
        } else if ca > cb {
            return Ordering::Greater;
        }
        proof {
            assert(a@.skip(i as int).drop_first() =~= a@.skip(i + 1));
            assert(b@.skip(i as int).drop_first() =~= b@.skip(i + 1));
        }
        i = i + 1;
    }
}

impl PartialEq for Value {
    /// Structural equality: same variant, equal contents; for floats,
    /// equality of the bit patterns.
    fn eq(&self, other: &Value) -> (r: bool) {
        match (self, other) {
            (Value::Null, Value::Null) => true,
            (Value::Bool(x), Value::Bool(y)) => *x == *y,
            (Value::Int(x), Value::Int(y)) => *x == *y,
            (Value::Float(x), Value::Float(y)) => *x == *y,
            (Value::String(x), Value::String(y)) => *x == *y,
            _ => false,
        }
    }
}

impl vstd::std_specs::cmp::PartialEqSpecImpl for Value {
    open spec fn obeys_eq_spec() -> bool {
        true
    }

    open spec fn eq_spec(&self, other: &Value) -> bool {
        self@ == other@
    }
}

impl PartialOrd for Value {
    /// The partial order of the value model: `value_cmp` on the views.
    fn partial_cmp(&self, other: &Value) -> (r: Option<Ordering>) {
        match (self, other) {
            (Value::Null, Value::Null) => Some(Ordering::Equal),
            (Value::Bool(x), Value::Bool(y)) => if x == y {
                Some(Ordering::Equal)
            } else if !*x {
                Some(Ordering::Less)
            } else {
                Some(Ordering::Greater)
            },
            (Value::Int(x), Value::Int(y)) => if x < y {
                Some(Ordering::Less)
            } else if x == y {
                Some(Ordering::Equal)
            } else {
                Some(Ordering::Greater)
            },
            (Value::Float(x), Value::Float(y)) => float_bits_cmp(*x, *y),
            (Value::String(x), Value::String(y)) => Some(
                str_compare(x.as_str(), y.as_str()),
            ),
            _ => None,
        }
    }
}

impl vstd::std_specs::cmp::PartialOrdSpecImpl for Value {
    open spec fn obeys_partial_cmp_spec() -> bool {
        true
    }

    open spec fn partial_cmp_spec(&self, other: &Value) -> Option<Ordering> {
        value_cmp(self@, other@)
    }
}

impl Clone for Value {
    /// A structural copy of the value.
    fn clone(&self) -> (r: Value)
        ensures
            r@ == self@,
    {
        match self {
            Value::Null => Value::Null,
            Value::Bool(b) => Value::Bool(*b),
            Value::Int(i) => Value::Int(*i),
            Value::Float(bits) => Value::Float(*bits),
            Value::String(s) => Value::String(s.clone()),
        }
    }
}

// ---------------------------------------------------------------------------
// A value wrapped with its optional expiration instant.
// ---------------------------------------------------------------------------

/// A value paired with an optional absolute expiration instant, in
/// milliseconds since the Unix epoch. `None` means the entry never expires.
#[derive(Debug)]
pub struct ValueWithTTL {
    pub value: Value,
    pub expires_at: Option<u64>,
}

/// The mathematical shape of a [`ValueWithTTL`].
pub struct WrappedView {
    pub value: ValueView,
    pub expires_at: Option<u64>,
}

impl View for ValueWithTTL {
    type V = WrappedView;

    open spec fn view(&self) -> WrappedView {
        WrappedView { value: self.value@, expires_at: self.expires_at }
    }
}

/// Whether a wrapped value has expired at the instant `now`: it carries an
/// expiration instant and that instant is strictly in the past.
pub open spec fn expired(w: WrappedView, now: u64) -> bool {
    w.expires_at matches Some(t) && t < now
}

/// The expiration instant for an entry inserted at `now` with a time-to-live
/// of `ttl` milliseconds, saturating at the top of the range.
pub open spec fn expiry_at(now: u64, ttl: u64) -> u64 {
    if now + ttl <= u64::MAX {
        (now + ttl) as u64
    } else {
        u64::MAX
    }
}

impl ValueWithTTL {
    /// Wraps a value inserted at the instant `now` with an optional
    /// time-to-live in milliseconds; without one, the entry never expires.
    pub fn new_at(value: Value, ttl: Option<u64>, now: u64) -> (r: ValueWithTTL)
        ensures
            r@.value == value@,
            r@.expires_at == match ttl {
                Some(t) => Some(expiry_at(now, t)),
                None => None::<u64>,
            },
    {
        let expires_at = match ttl {
            Some(t) => Some(
                if t <= u64::MAX - now {
                    now + t
                } else {
                    u64::MAX
                },
            ),
            None => None,
        };
        ValueWithTTL { value, expires_at }
    }

    /// Wraps a value read off the wall clock: the expiration instant, if any,
    /// is the current time plus the time-to-live.
    pub fn new(value: Value, ttl: Option<u64>) -> (r: ValueWithTTL)
        ensures
            r@.value == value@,
            r@.expires_at is Some <==> ttl is Some,
    {
        let now = current_time_millis();
        Self::new_at(value, ttl, now)
    }

    /// Whether this entry has expired at the instant `now`. Recomputed on
    /// every call: expiration is a read-time policy, never a cached flag.
    pub fn is_expired_at(&self, now: u64) -> (r: bool)
        ensures
            r == expired(self@, now),
    {
        match self.expires_at {
            Some(t) => t < now,
            None => false,
        }
    }

    /// Whether this entry has expired against the wall clock. An entry
    /// without an expiration instant is never expired; whatever the clock
    /// read, only an entry that carries an expiration instant can report
    /// itself expired.
    pub fn is_expired(&self) -> (r: bool)
        ensures
            self@.expires_at is None ==> r == false,
            r ==> self@.expires_at is Some,
    {
        let now = current_time_millis();
        self.is_expired_at(now)
    }
}

impl Clone for ValueWithTTL {
    /// A structural copy of the wrapped value.
    fn clone(&self) -> (r: ValueWithTTL)
        ensures
            r@ == self@,
    {
        ValueWithTTL { value: self.value.clone(), expires_at: self.expires_at }
    }
}

// ---------------------------------------------------------------------------
// The wall clock.
// ---------------------------------------------------------------------------

/// Relies on std's `SystemTime::now`, `SystemTime::duration_since` and
/// `Duration::as_millis` for the wall clock: the milliseconds since the Unix
/// epoch, or 0 when the clock reads earlier than the epoch — the error arm
/// makes the reading total, so no clock state can make this call panic.
/// Nothing is assumed of the value: every caller is verified for an
/// arbitrary reading.
#[verifier::external_body]
fn clock_now_millis() -> u64 {
    match std::time::SystemTime::now().duration_since(std::time::UNIX_EPOCH) {
        Ok(elapsed) => elapsed.as_millis() as u64,
        Err(_) => 0,
    }
}

/// The wall clock: milliseconds since the Unix epoch, 0 for a clock reading
/// before it.
pub fn current_time_millis() -> u64 {
    clock_now_millis()
}

} // verus!
