//! The fields of a carrier as a sequence of entries in key order, and what
//! that sequence stands for.
//!
//! A carrier keeps its entries in a vector, sorted by key with no key twice.
//! The lemmas here say what a lookup finds in such a sequence and what
//! replacing or inserting an entry does to the map it stands for.

use vstd::prelude::*;
use crate::carrier::{is_lowercased, well_keyed};
use crate::key_order::{key_lt, lemma_key_lt_irreflexive, lemma_key_lt_total, lemma_key_lt_transitive};

verus! {

/// One field of a carrier.
#[derive(Debug)]
pub(crate) struct Entry {
    pub(crate) key: String,
    pub(crate) value: String,
}

/// The keys of `es` strictly increase in the key order.
pub(crate) open spec fn increasing(es: Seq<Entry>) -> bool {
    forall|i: int, j: int| 0 <= i < j < es.len() ==> key_lt(#[trigger] es[i].key@, #[trigger] es[j].key@)
}

/// Every key of `es` is lowercased.
pub(crate) open spec fn lowercased(es: Seq<Entry>) -> bool {
    forall|i: int| 0 <= i < es.len() ==> is_lowercased(#[trigger] es[i].key@)
}

/// `key` is the key of the entry at `i`.
pub(crate) open spec fn holds_at(es: Seq<Entry>, key: Seq<char>, i: int) -> bool {
    0 <= i < es.len() && es[i].key@ == key
}

/// The map that a sequence of entries stands for.
pub(crate) open spec fn fields_of(es: Seq<Entry>) -> Map<Seq<char>, Seq<char>> {
    Map::new(
        |k: Seq<char>| exists|i: int| holds_at(es, k, i),
        |k: Seq<char>| es[choose|i: int| holds_at(es, k, i)].value@,
    )
}

/// In an increasing sequence a key stands at one place at most.
pub(crate) proof fn lemma_place_unique(es: Seq<Entry>, i: int, j: int)
    requires
        increasing(es),
        0 <= i < es.len(),
        0 <= j < es.len(),
        es[i].key@ == es[j].key@,
    ensures
        i == j,
{
    lemma_key_lt_irreflexive(es[i].key@);
}

/// The entry at `i` of an increasing sequence is what the map holds for its key.
pub(crate) proof fn lemma_fields_at(es: Seq<Entry>, i: int)
    requires
        increasing(es),
        0 <= i < es.len(),
    ensures
        fields_of(es).contains_key(es[i].key@),
        fields_of(es)[es[i].key@] == es[i].value@,
{
    let k = es[i].key@;
    assert(holds_at(es, k, i));
    let j = choose|j: int| holds_at(es, k, j);
    lemma_place_unique(es, i, j);
}

/// A key that stands between two neighbours of an increasing sequence, or
/// before its first or behind its last entry, is not in the map.
pub(crate) proof fn lemma_absent(es: Seq<Entry>, key: Seq<char>, at: int)
    requires
        increasing(es),
        0 <= at <= es.len(),
        forall|i: int| 0 <= i < at ==> key_lt(#[trigger] es[i].key@, key),
        at < es.len() ==> key_lt(key, es[at].key@),
    ensures
        !fields_of(es).contains_key(key),
{
    if fields_of(es).contains_key(key) {
        let j = choose|j: int| holds_at(es, key, j);
        lemma_key_lt_irreflexive(key);
        if j > at {
            lemma_key_lt_transitive(key, es[at].key@, es[j].key@);
        }
    }
}

/// The keys of a sequence of entries are finitely many.
pub(crate) proof fn lemma_fields_finite(es: Seq<Entry>)
    ensures
        fields_of(es).dom().finite(),
    decreases es.len(),
{
    if es.len() == 0 {
        assert(fields_of(es).dom() =~= Set::<Seq<char>>::empty());
    } else {
        let front = es.drop_last();
        lemma_fields_finite(front);
        let k = es.last().key@;
        assert(fields_of(es).dom() =~= fields_of(front).dom().insert(k)) by {
            assert forall|x: Seq<char>| fields_of(es).dom().contains(x) implies fields_of(
                front,
            ).dom().insert(k).contains(x) by {
                let i = choose|i: int| holds_at(es, x, i);
                if i < es.len() - 1 {
                    assert(holds_at(front, x, i));
                }
            }
            assert forall|x: Seq<char>| fields_of(front).dom().insert(k).contains(
                x,
            ) implies fields_of(es).dom().contains(x) by {
                if x == k {
                    assert(holds_at(es, x, es.len() - 1));
                } else {
                    let i = choose|i: int| holds_at(front, x, i);
                    assert(holds_at(es, x, i));
                }
            }
        }
    }
}

/// The map of a sequence of entries with lowercased keys is well keyed.
pub(crate) proof fn lemma_fields_well_keyed(es: Seq<Entry>)
    requires
        lowercased(es),
    ensures
        well_keyed(fields_of(es)),
{
    lemma_fields_finite(es);
    assert forall|k: Seq<char>| #[trigger] fields_of(es).contains_key(k) implies is_lowercased(
        k,
    ) by {
        let i = choose|i: int| holds_at(es, k, i);
        assert(is_lowercased(es[i].key@));
    }
}

/// Putting a new value in the place of an entry, under the same key, keeps the
/// order and writes that value into the map.
pub(crate) proof fn lemma_replace(es: Seq<Entry>, at: int, e: Entry)
    requires
        increasing(es),
        lowercased(es),
        0 <= at < es.len(),
        e.key@ == es[at].key@,
    ensures
        increasing(es.update(at, e)),
        lowercased(es.update(at, e)),
        fields_of(es.update(at, e)) == fields_of(es).insert(e.key@, e.value@),
{
    let after = es.update(at, e);
    assert forall|i: int, j: int| 0 <= i < j < after.len() implies key_lt(
        #[trigger] after[i].key@,
        #[trigger] after[j].key@,
    ) by {
        assert(after[i].key@ == es[i].key@);
        assert(after[j].key@ == es[j].key@);
    }
    assert forall|i: int| 0 <= i < after.len() implies is_lowercased(
        #[trigger] after[i].key@,
    ) by {
        assert(after[i].key@ == es[i].key@);
    }
    let want = fields_of(es).insert(e.key@, e.value@);
    assert forall|k: Seq<char>| fields_of(after).contains_key(k) <==> want.contains_key(k) by {
        if fields_of(after).contains_key(k) {
            let i = choose|i: int| holds_at(after, k, i);
            assert(holds_at(es, k, i));
        }
        if want.contains_key(k) {
            if k == e.key@ {
                assert(holds_at(after, k, at));
            } else {
                let i = choose|i: int| holds_at(es, k, i);
                assert(holds_at(after, k, i));
            }
        }
    }
    assert forall|k: Seq<char>| fields_of(after).contains_key(k) implies fields_of(after)[k]
        == want[k] by {
        let i = choose|i: int| holds_at(after, k, i);
        lemma_fields_at(after, i);
        if i != at {
            lemma_place_unique(es, i, i);
            lemma_fields_at(es, i);
            lemma_key_lt_irreflexive(k);
            if k == e.key@ {
                lemma_place_unique(es, i, at);
            }
        }
    }
    assert(fields_of(after) =~= want);
}

/// Putting an entry between the keys before it and the keys behind it keeps the
/// order and adds the entry to the map.
pub(crate) proof fn lemma_insert(es: Seq<Entry>, at: int, e: Entry)
    requires
        increasing(es),
        lowercased(es),
        is_lowercased(e.key@),
        0 <= at <= es.len(),
        forall|i: int| 0 <= i < at ==> key_lt(#[trigger] es[i].key@, e.key@),
        at < es.len() ==> key_lt(e.key@, es[at].key@),
    ensures
        increasing(es.insert(at, e)),
        lowercased(es.insert(at, e)),
        fields_of(es.insert(at, e)) == fields_of(es).insert(e.key@, e.value@),
{
    let after = es.insert(at, e);
    assert forall|i: int| at <= i < es.len() implies key_lt(e.key@, #[trigger] es[i].key@) by {
        if at < i {
            lemma_key_lt_transitive(e.key@, es[at].key@, es[i].key@);
        }
    }
    assert forall|i: int, j: int| 0 <= i < j < after.len() implies key_lt(
        #[trigger] after[i].key@,
        #[trigger] after[j].key@,
    ) by {
        if i < at {
            assert(after[i] == es[i]);
        } else if i > at {
            assert(after[i] == es[i - 1]);
        }
        if j < at {
            assert(after[j] == es[j]);
        } else if j > at {
            assert(after[j] == es[j - 1]);
        }
    }
    assert forall|i: int| 0 <= i < after.len() implies is_lowercased(
        #[trigger] after[i].key@,
    ) by {
        if i < at {
            assert(after[i] == es[i]);
        } else if i > at {
            assert(after[i] == es[i - 1]);
        }
    }
    let want = fields_of(es).insert(e.key@, e.value@);
    assert forall|k: Seq<char>| fields_of(after).contains_key(k) <==> want.contains_key(k) by {
        if fields_of(after).contains_key(k) {
            let i = choose|i: int| holds_at(after, k, i);
            if i < at {
                assert(holds_at(es, k, i));
            } else if i > at {
                assert(holds_at(es, k, i - 1));
            }
        }
        if want.contains_key(k) {
            if k == e.key@ {
                assert(holds_at(after, k, at));
            } else {
                let i = choose|i: int| holds_at(es, k, i);
                if i < at {
                    assert(holds_at(after, k, i));
                } else {
                    assert(after[i + 1] == es[i]);
                    assert(holds_at(after, k, i + 1));
                }
            }
        }
    }
    assert forall|k: Seq<char>| fields_of(after).contains_key(k) implies fields_of(after)[k]
        == want[k] by {
        let i = choose|i: int| holds_at(after, k, i);
        lemma_fields_at(after, i);
        if i < at {
            assert(after[i] == es[i]);
            lemma_fields_at(es, i);
            lemma_key_lt_irreflexive(k);
        } else if i > at {
            assert(after[i] == es[i - 1]);
            lemma_fields_at(es, i - 1);
            lemma_key_lt_irreflexive(k);
        }
    }
    assert(fields_of(after) =~= want);
}

/// `a` and `b` hold the same key and the same value at place `i`.
pub(crate) open spec fn same_at(a: Seq<Entry>, b: Seq<Entry>, i: int) -> bool {
    a[i].key@ == b[i].key@ && a[i].value@ == b[i].value@
}

/// Two increasing sequences that hold the same keys and values, place by
/// place, stand for the same map.
pub(crate) proof fn lemma_same_fields(a: Seq<Entry>, b: Seq<Entry>)
    requires
        increasing(a),
        increasing(b),
        a.len() == b.len(),
        forall|i: int| 0 <= i < a.len() ==> #[trigger] same_at(a, b, i),
    ensures
        fields_of(a) == fields_of(b),
{
    assert forall|k: Seq<char>| fields_of(a).contains_key(k) <==> fields_of(b).contains_key(k) by {
        if fields_of(a).contains_key(k) {
            let i = choose|i: int| holds_at(a, k, i);
            assert(same_at(a, b, i));
            assert(holds_at(b, k, i));
        }
        if fields_of(b).contains_key(k) {
            let i = choose|i: int| holds_at(b, k, i);
            assert(same_at(a, b, i));
            assert(holds_at(a, k, i));
        }
    }
    assert forall|k: Seq<char>| fields_of(a).contains_key(k) implies fields_of(a)[k] == fields_of(
        b,
    )[k] by {
        let i = choose|i: int| holds_at(a, k, i);
        assert(same_at(a, b, i));
        lemma_fields_at(a, i);
        lemma_fields_at(b, i);
    }
    assert(fields_of(a) =~= fields_of(b));
}

/// Behind a common run of entries, a key of `a` at `i` that precedes the key
/// of `b` at `i`, or stands where `b` has ended, is in the map of `a` and not
/// in the map of `b`.
pub(crate) proof fn lemma_key_missing(a: Seq<Entry>, b: Seq<Entry>, i: int)
    requires
        increasing(a),
        increasing(b),
        0 <= i < a.len(),
        i <= b.len(),
        forall|j: int| 0 <= j < i ==> #[trigger] same_at(a, b, j),
        i < b.len() ==> key_lt(a[i].key@, b[i].key@),
    ensures
        fields_of(a).contains_key(a[i].key@),
        !fields_of(b).contains_key(a[i].key@),
{
    lemma_fields_at(a, i);
    assert forall|j: int| 0 <= j < i implies key_lt(#[trigger] b[j].key@, a[i].key@) by {
        assert(same_at(a, b, j));
        assert(key_lt(a[j].key@, a[i].key@));
    }
    lemma_absent(b, a[i].key@, i);
}

/// Two increasing sequences that hold the same entries before `i` and part
/// ways at `i`, in key or value or because one of them ends there, stand for
/// different maps.
pub(crate) proof fn lemma_fields_differ(a: Seq<Entry>, b: Seq<Entry>, i: int)
    requires
        increasing(a),
        increasing(b),
        0 <= i <= a.len(),
        i <= b.len(),
        forall|j: int| 0 <= j < i ==> #[trigger] same_at(a, b, j),
        i < a.len() && i < b.len() ==> !same_at(a, b, i),
        i == a.len() || i == b.len() ==> a.len() != b.len(),
    ensures
        fields_of(a) != fields_of(b),
{
    assert forall|j: int| 0 <= j < i implies #[trigger] same_at(b, a, j) by {
        assert(same_at(a, b, j));
    }
    if i == a.len() {
        lemma_key_missing(b, a, i);
    } else if i == b.len() {
        lemma_key_missing(a, b, i);
    } else if a[i].key@ == b[i].key@ {
        lemma_fields_at(a, i);
        lemma_fields_at(b, i);
    } else {
        lemma_key_lt_total(a[i].key@, b[i].key@);
        if key_lt(a[i].key@, b[i].key@) {
            lemma_key_missing(a, b, i);
        } else {
            lemma_key_missing(b, a, i);
        }
    }
}

} // verus!
