//! The context carrier: a bag of string fields with case-insensitive keys.
//!
//! A carrier is a detached value. It holds what a propagation format wrote into
//! it and hands the same fields back to the format on the other side of a
//! boundary. Its model is a finite map from lowercased key to value.

use vstd::prelude::*;
use vstd::string::*;
use vstd::std_specs::cmp::PartialEqSpecImpl;
use crate::entries::{Entry, fields_of, holds_at, increasing, lowercased};
use crate::entries::{lemma_absent, lemma_fields_at, lemma_fields_differ, lemma_fields_well_keyed};
use crate::entries::{lemma_insert, lemma_replace, lemma_same_fields, same_at};
use crate::key_order::{key_lt, compare_keys, KeyOrder, lemma_key_lt_transitive};

verus! {

/// The lowercase form of a key, as `str::to_lowercase` computes it.
pub uninterp spec fn lowercase(key: Seq<char>) -> Seq<char>;

/// Calls `str::to_lowercase`. The result is the Unicode lowercase form of the
/// argument, which depends on the argument alone; the contract gives it the
/// name `lowercase` and claims nothing else of it.
#[verifier::external_body]
fn lowercase_of(key: &str) -> (r: String)
    ensures
        r@ == lowercase(key@),
{
    key.to_lowercase()
}

/// A key is lowercased when it is the lowercase form of some string.
pub open spec fn is_lowercased(key: Seq<char>) -> bool {
    exists|s: Seq<char>| lowercase(s) == key
}

/// What a lookup of `key` in the fields `m` gives.
pub open spec fn carrier_get(m: Map<Seq<char>, Seq<char>>, key: Seq<char>) -> Option<Seq<char>> {
    if m.contains_key(lowercase(key)) {
        Some(m[lowercase(key)])
    } else {
        None
    }
}

/// The fields `m` after `value` was written under `key`.
pub open spec fn carrier_set(m: Map<Seq<char>, Seq<char>>, key: Seq<char>, value: Seq<char>) -> Map<
    Seq<char>,
    Seq<char>,
> {
    m.insert(lowercase(key), value)
}

/// Every key of `m` is lowercased, and `m` is finite.
pub open spec fn well_keyed(m: Map<Seq<char>, Seq<char>>) -> bool {
    &&& m.dom().finite()
    &&& forall|k: Seq<char>| #[trigger] m.contains_key(k) ==> is_lowercased(k)
}

/// An empty carrier shows no field, whatever key is asked for.
pub proof fn lemma_empty_holds_nothing(key: Seq<char>)
    ensures
        carrier_get(Map::<Seq<char>, Seq<char>>::empty(), key) is None,
        well_keyed(Map::<Seq<char>, Seq<char>>::empty()),
{
}

/// A value written under one spelling of a key is read back under every
/// spelling that has the same lowercase form.
pub proof fn lemma_get_after_set(
    m: Map<Seq<char>, Seq<char>>,
    written: Seq<char>,
    read: Seq<char>,
    value: Seq<char>,
)
    requires
        lowercase(written) == lowercase(read),
    ensures
        carrier_get(carrier_set(m, written, value), read) == Some(value),
{
}

/// A lookup does not tell two spellings of a key apart.
pub proof fn lemma_get_ignores_case(m: Map<Seq<char>, Seq<char>>, a: Seq<char>, b: Seq<char>)
    requires
        lowercase(a) == lowercase(b),
    ensures
        carrier_get(m, a) == carrier_get(m, b),
{
}

/// A write leaves every key with another lowercase form as it was.
pub proof fn lemma_set_keeps_others(
    m: Map<Seq<char>, Seq<char>>,
    written: Seq<char>,
    read: Seq<char>,
    value: Seq<char>,
)
    requires
        lowercase(written) != lowercase(read),
    ensures
        carrier_get(carrier_set(m, written, value), read) == carrier_get(m, read),
{
}

/// Of two writes under spellings of one key the last one wins, and no trace of
/// the first is left.
pub proof fn lemma_last_write_wins(
    m: Map<Seq<char>, Seq<char>>,
    first: Seq<char>,
    first_value: Seq<char>,
    last: Seq<char>,
    last_value: Seq<char>,
)
    requires
        lowercase(first) == lowercase(last),
    ensures
        carrier_set(carrier_set(m, first, first_value), last, last_value) == carrier_set(
            m,
            last,
            last_value,
        ),
{
    assert(carrier_set(carrier_set(m, first, first_value), last, last_value) =~= carrier_set(
        m,
        last,
        last_value,
    ));
}

/// The order of two writes under different keys does not show in the fields.
pub proof fn lemma_writes_commute(
    m: Map<Seq<char>, Seq<char>>,
    a: Seq<char>,
    a_value: Seq<char>,
    b: Seq<char>,
    b_value: Seq<char>,
)
    requires
        lowercase(a) != lowercase(b),
    ensures
        carrier_set(carrier_set(m, a, a_value), b, b_value) == carrier_set(
            carrier_set(m, b, b_value),
            a,
            a_value,
        ),
{
    assert(carrier_set(carrier_set(m, a, a_value), b, b_value) =~= carrier_set(
        carrier_set(m, b, b_value),
        a,
        a_value,
    ));
}

/// A write keeps the fields finite and every key lowercased.
pub proof fn lemma_set_well_keyed(m: Map<Seq<char>, Seq<char>>, key: Seq<char>, value: Seq<char>)
    requires
        well_keyed(m),
    ensures
        well_keyed(carrier_set(m, key, value)),
{
    assert(is_lowercased(lowercase(key)));
}

/// A trace context in transportable form.
///
/// Allows associating spans across task or thread boundaries.
#[derive(Debug)]
pub struct OpenTelemetryContext {
    inner: Vec<Entry>,
}

impl View for OpenTelemetryContext {
    type V = Map<Seq<char>, Seq<char>>;

    closed spec fn view(&self) -> Map<Seq<char>, Seq<char>> {
        fields_of(self.inner@)
    }
}

impl OpenTelemetryContext {
    /// The keys strictly increase and each of them is lowercased.
    #[verifier::type_invariant]
    pub(crate) closed spec fn inv(&self) -> bool {
        increasing(self.inner@) && lowercased(self.inner@)
    }

    /// What the invariant says of the fields.
    pub(crate) proof fn lemma_inv_well_keyed(self)
        requires
            self.inv(),
        ensures
            well_keyed(self@),
    {
        lemma_fields_well_keyed(self.inner@);
    }

    /// Obtains an empty context: one that holds no field.
    pub fn empty() -> (r: Self)
        ensures
            r@ == Map::<Seq<char>, Seq<char>>::empty(),
            well_keyed(r@),
    {
        let r = OpenTelemetryContext { inner: Vec::new() };
        assert(r@ =~= Map::<Seq<char>, Seq<char>>::empty());
        r
    }

    /// Finds the place of `key`: the index of the entry that holds it, or of
    /// the first entry behind it.
    fn place(&self, key: &str) -> (r: (usize, bool))
        ensures
            r.0 <= self.inner@.len(),
            forall|i: int| 0 <= i < r.0 ==> key_lt(#[trigger] self.inner@[i].key@, key@),
            r.1 ==> holds_at(self.inner@, key@, r.0 as int),
            !r.1 && r.0 < self.inner@.len() ==> key_lt(key@, self.inner@[r.0 as int].key@),
    {
        proof {
            use_type_invariant(self);
        }
        let mut lo: usize = 0;
        let mut hi: usize = self.inner.len();
        while lo < hi
            invariant
                increasing(self.inner@),
                lo <= hi <= self.inner@.len(),
                forall|i: int| 0 <= i < lo ==> key_lt(#[trigger] self.inner@[i].key@, key@),
                forall|i: int| hi <= i < self.inner@.len() ==> key_lt(key@, #[trigger] self.inner@[i].key@),
            decreases hi - lo,
        {
            let mid: usize = lo + (hi - lo) / 2;
            let here = self.inner[mid].key.as_str();
            match compare_keys(here, key) {
                KeyOrder::Same => {
                    return (mid, true);
                },
                KeyOrder::Before => {
                    proof {
                        assert forall|i: int| 0 <= i < mid + 1 implies key_lt(
                            #[trigger] self.inner@[i].key@,
                            key@,
                        ) by {
                            if i < mid {
                                lemma_key_lt_transitive(self.inner@[i].key@, here@, key@);
                            }
                        }
                    }
                    lo = mid + 1;
                },
                KeyOrder::After => {
                    proof {
                        assert forall|i: int| mid <= i < self.inner@.len() implies key_lt(
                            key@,
                            #[trigger] self.inner@[i].key@,
                        ) by {
                            if mid < i {
                                lemma_key_lt_transitive(key@, here@, self.inner@[i].key@);
                            }
                        }
                    }
                    hi = mid;
                },
            }
        }
        (lo, false)
    }

    /// Looks up the field whose key is exactly `key`.
    pub fn get_exact(&self, key: &str) -> (r: Option<&str>)
        ensures
            match r {
                Some(v) => self@.contains_key(key@) && self@[key@] == v@,
                None => !self@.contains_key(key@),
            },
    {
        proof {
            use_type_invariant(self);
        }
        let (at, found) = self.place(key);
        if found {
            proof {
                lemma_fields_at(self.inner@, at as int);
            }
            Some(self.inner[at].value.as_str())
        } else {
            proof {
                lemma_absent(self.inner@, key@, at as int);
            }
            None
        }
    }

    /// Writes `value` under exactly `key`, in place of any value that stood
    /// there. The key has to be lowercased already.
    pub fn set_exact(&mut self, key: String, value: String)
        requires
            is_lowercased(key@),
        ensures
            final(self)@ == old(self)@.insert(key@, value@),
            well_keyed(final(self)@),
    {
        proof {
            use_type_invariant(&*self);
        }
        let (at, found) = self.place(key.as_str());
        let entry = Entry { key, value };
        let mut entries: Vec<Entry> = Vec::new();
        std::mem::swap(&mut self.inner, &mut entries);
        proof {
            if found {
                lemma_replace(entries@, at as int, entry);
                lemma_fields_well_keyed(entries@.update(at as int, entry));
            } else {
                lemma_insert(entries@, at as int, entry);
                lemma_fields_well_keyed(entries@.insert(at as int, entry));
            }
        }
        if found {
            entries.set(at, entry);
        } else {
            entries.insert(at, entry);
        }
        self.inner = entries;
    }

    /// Looks `key` up without regard to its case.
    pub fn get(&self, key: &str) -> (r: Option<&str>)
        ensures
            match r {
                Some(v) => carrier_get(self@, key@) == Some(v@),
                None => carrier_get(self@, key@) is None,
            },
    {
        let lowered = lowercase_of(key);
        self.get_exact(lowered.as_str())
    }

    /// Writes `value` under the lowercase form of `key`, in place of any value
    /// that stood there.
    pub fn set(&mut self, key: &str, value: String)
        ensures
            final(self)@ == carrier_set(old(self)@, key@, value@),
            well_keyed(final(self)@),
    {
        let lowered = lowercase_of(key);
        self.set_exact(lowered, value);
    }

    /// Lists the keys, each once, in increasing key order.
    pub fn keys(&self) -> (r: Vec<&str>)
        ensures
            forall|i: int, j: int|
                0 <= i < j < r@.len() ==> key_lt(#[trigger] r@[i]@, #[trigger] r@[j]@),
            forall|k: Seq<char>|
                self@.contains_key(k) <==> exists|i: int| 0 <= i < r@.len() && #[trigger] r@[i]@ == k,
            forall|i: int| 0 <= i < r@.len() ==> is_lowercased(#[trigger] r@[i]@),
    {
        proof {
            use_type_invariant(self);
        }
        let mut r: Vec<&str> = Vec::new();
        let n: usize = self.inner.len();
        let mut i: usize = 0;
        while i < n
            invariant
                n == self.inner@.len(),
                i <= n,
                r@.len() == i,
                forall|j: int| 0 <= j < i ==> #[trigger] r@[j]@ == self.inner@[j].key@,
            decreases n - i,
        {
            r.push(self.inner[i].key.as_str());
            i = i + 1;
        }
        proof {
            assert forall|k: Seq<char>| self@.contains_key(k) <==> exists|i: int|
                0 <= i < r@.len() && #[trigger] r@[i]@ == k by {
                if self@.contains_key(k) {
                    let j = choose|j: int| holds_at(self.inner@, k, j);
                    assert(r@[j]@ == k);
                }
                if exists|i: int| 0 <= i < r@.len() && #[trigger] r@[i]@ == k {
                    let j = choose|i: int| 0 <= i < r@.len() && #[trigger] r@[i]@ == k;
                    assert(holds_at(self.inner@, k, j));
                }
            }
        }
        r
    }
}

impl PartialEq for OpenTelemetryContext {
    /// Two contexts are equal when they hold the same fields.
    fn eq(&self, other: &Self) -> (r: bool) {
        proof {
            use_type_invariant(self);
            use_type_invariant(other);
        }
        let n: usize = self.inner.len();
        let m: usize = other.inner.len();
        let mut i: usize = 0;
        while i < n && i < m
            invariant
                increasing(self.inner@),
                increasing(other.inner@),
                n == self.inner@.len(),
                m == other.inner@.len(),
                i <= n,
                i <= m,
                forall|j: int| 0 <= j < i ==> #[trigger] same_at(self.inner@, other.inner@, j),
            decreases n - i,
        {
            let same_key = self.inner[i].key == other.inner[i].key;
            let same_value = self.inner[i].value == other.inner[i].value;
            assert((same_key && same_value) <==> same_at(self.inner@, other.inner@, i as int));
            if !same_key || !same_value {
                proof {
                    lemma_fields_differ(self.inner@, other.inner@, i as int);
                }
                return false;
            }
            i = i + 1;
        }
        if n != m {
            proof {
                lemma_fields_differ(self.inner@, other.inner@, i as int);
            }
            return false;
        }
        proof {
            lemma_same_fields(self.inner@, other.inner@);
        }
        true
    }
}

impl PartialEqSpecImpl for OpenTelemetryContext {
    open spec fn obeys_eq_spec() -> bool {
        true
    }

    open spec fn eq_spec(&self, other: &Self) -> bool {
        self@ == other@
    }
}

impl Clone for OpenTelemetryContext {
    /// A copy that holds the same fields.
    fn clone(&self) -> (r: Self)
        ensures
            r@ == self@,
    {
        proof {
            use_type_invariant(self);
        }
        let mut entries: Vec<Entry> = Vec::new();
        let n: usize = self.inner.len();
        let mut i: usize = 0;
        while i < n
            invariant
                n == self.inner@.len(),
                i <= n,
                entries@.len() == i,
                forall|j: int| 0 <= j < i ==> #[trigger] same_at(entries@, self.inner@, j),
            decreases n - i,
        {
            let entry = Entry { key: self.inner[i].key.clone(), value: self.inner[i].value.clone() };
            let ghost before = entries@;
            entries.push(entry);
            proof {
                assert forall|j: int| 0 <= j < i + 1 implies #[trigger] same_at(
                    entries@,
                    self.inner@,
                    j,
                ) by {
                    if j < i {
                        assert(same_at(before, self.inner@, j));
                        assert(entries@[j] == before[j]);
                    }
                }
            }
            i = i + 1;
        }
        proof {
            assert forall|i: int, j: int| 0 <= i < j < entries@.len() implies key_lt(
                #[trigger] entries@[i].key@,
                #[trigger] entries@[j].key@,
            ) by {
                assert(same_at(entries@, self.inner@, i));
                assert(same_at(entries@, self.inner@, j));
            }
            assert forall|i: int| 0 <= i < entries@.len() implies is_lowercased(
                #[trigger] entries@[i].key@,
            ) by {
                assert(same_at(entries@, self.inner@, i));
            }
            lemma_same_fields(entries@, self.inner@);
        }
        OpenTelemetryContext { inner: entries }
    }
}

impl opentelemetry::propagation::Extractor for OpenTelemetryContext {
    /// Reads a field for a propagation format, by `OpenTelemetryContext::get`.
    fn get(&self, key: &str) -> (r: Option<&str>)
        ensures
            match r {
                Some(v) => carrier_get(self@, key@) == Some(v@),
                None => carrier_get(self@, key@) is None,
            },
    {
        OpenTelemetryContext::get(self, key)
    }

    /// Lists the keys for a propagation format, by `OpenTelemetryContext::keys`.
    fn keys(&self) -> (r: Vec<&str>)
        ensures
            forall|i: int, j: int|
                0 <= i < j < r@.len() ==> key_lt(#[trigger] r@[i]@, #[trigger] r@[j]@),
            forall|k: Seq<char>|
                self@.contains_key(k) <==> exists|i: int| 0 <= i < r@.len() && #[trigger] r@[i]@ == k,
            forall|i: int| 0 <= i < r@.len() ==> is_lowercased(#[trigger] r@[i]@),
    {
        OpenTelemetryContext::keys(self)
    }
}

impl opentelemetry::propagation::Injector for OpenTelemetryContext {
    /// Writes a field for a propagation format, by `OpenTelemetryContext::set`.
    fn set(&mut self, key: &str, value: String)
        ensures
            final(self)@ == carrier_set(old(self)@, key@, value@),
            well_keyed(final(self)@),
    {
        OpenTelemetryContext::set(self, key, value)
    }
}

} // verus!
