//! The order in which a carrier keeps its keys.
//!
//! Keys are ordered as Rust orders strings: lexicographically by the bytes of
//! their UTF-8 encoding. The order is defined here on byte sequences, lifted to
//! character sequences, proved to be a strict total order, and decided by
//! `compare_keys`.

use vstd::prelude::*;
use vstd::utf8::*;
use vstd::string::*;

verus! {

/// `a` and `b` agree on their first `i` bytes, and at position `i` either `a`
/// has ended while `b` goes on, or `a` holds the smaller byte.
pub open spec fn precedes_at(a: Seq<u8>, b: Seq<u8>, i: int) -> bool {
    &&& 0 <= i <= a.len()
    &&& i < b.len()
    &&& a.subrange(0, i) == b.subrange(0, i)
    &&& (i < a.len() ==> a[i] < b[i])
}

/// Strict lexicographic order on byte sequences.
pub open spec fn bytes_lt(a: Seq<u8>, b: Seq<u8>) -> bool {
    exists|i: int| precedes_at(a, b, i)
}

/// Strict order on keys: the lexicographic order of their UTF-8 encodings.
pub open spec fn key_lt(a: Seq<char>, b: Seq<char>) -> bool {
    bytes_lt(encode_utf8(a), encode_utf8(b))
}

/// How one key stands to another.
#[derive(Clone, Copy, Debug, PartialEq, Eq, Structural)]
pub enum KeyOrder {
    Before,
    Same,
    After,
}

/// Two byte sequences that agree up to `i` and up to `j` with `i < j` also
/// hold the same byte at `i`.
proof fn lemma_prefix_agrees(a: Seq<u8>, b: Seq<u8>, i: int, j: int)
    requires
        0 <= i < j,
        j <= a.len(),
        j <= b.len(),
        a.subrange(0, j) == b.subrange(0, j),
    ensures
        a[i] == b[i],
        a.subrange(0, i) == b.subrange(0, i),
{
    assert(a[i] == a.subrange(0, j)[i]);
    assert(b[i] == b.subrange(0, j)[i]);
    assert(a.subrange(0, i) =~= a.subrange(0, j).subrange(0, i));
    assert(b.subrange(0, i) =~= b.subrange(0, j).subrange(0, i));
}

/// No byte sequence precedes itself.
pub proof fn lemma_bytes_lt_irreflexive(a: Seq<u8>)
    ensures
        !bytes_lt(a, a),
{
}

/// The byte order is transitive.
pub proof fn lemma_bytes_lt_transitive(a: Seq<u8>, b: Seq<u8>, c: Seq<u8>)
    requires
        bytes_lt(a, b),
        bytes_lt(b, c),
    ensures
        bytes_lt(a, c),
{
    let i = choose|i: int| precedes_at(a, b, i);
    let j = choose|j: int| precedes_at(b, c, j);
    if i < j {
        lemma_prefix_agrees(b, c, i, j);
        assert(precedes_at(a, c, i));
    } else if j < i {
        lemma_prefix_agrees(a, b, j, i);
        assert(precedes_at(a, c, j));
    } else {
        assert(precedes_at(a, c, i));
    }
}

/// Of two different byte sequences one precedes the other.
pub proof fn lemma_bytes_lt_total(a: Seq<u8>, b: Seq<u8>)
    ensures
        a == b || bytes_lt(a, b) || bytes_lt(b, a),
    decreases a.len(),
{
    if a.len() == 0 {
        if b.len() == 0 {
            assert(a =~= b);
        } else {
            assert(a.subrange(0, 0) =~= b.subrange(0, 0));
            assert(precedes_at(a, b, 0));
        }
    } else if b.len() == 0 {
        assert(a.subrange(0, 0) =~= b.subrange(0, 0));
        assert(precedes_at(b, a, 0));
    } else if a[0] != b[0] {
        assert(a.subrange(0, 0) =~= b.subrange(0, 0));
        if a[0] < b[0] {
            assert(precedes_at(a, b, 0));
        } else {
            assert(precedes_at(b, a, 0));
        }
    } else {
        let ta = a.drop_first();
        let tb = b.drop_first();
        lemma_bytes_lt_total(ta, tb);
        if ta == tb {
            assert(a =~= seq![a[0]] + ta);
            assert(b =~= seq![b[0]] + tb);
        } else if bytes_lt(ta, tb) {
            let i = choose|i: int| precedes_at(ta, tb, i);
            lemma_shift_precedes(a, b, i);
        } else {
            let i = choose|i: int| precedes_at(tb, ta, i);
            lemma_shift_precedes(b, a, i);
        }
    }
}

/// A witness for the tails, behind equal first bytes, gives one for the whole.
proof fn lemma_shift_precedes(a: Seq<u8>, b: Seq<u8>, i: int)
    requires
        a.len() > 0,
        b.len() > 0,
        a[0] == b[0],
        precedes_at(a.drop_first(), b.drop_first(), i),
    ensures
        precedes_at(a, b, i + 1),
{
    let ta = a.drop_first();
    let tb = b.drop_first();
    assert(a.subrange(0, i + 1) =~= seq![a[0]] + ta.subrange(0, i));
    assert(b.subrange(0, i + 1) =~= seq![b[0]] + tb.subrange(0, i));
    if i < ta.len() {
        assert(a[i + 1] == ta[i]);
        assert(b[i + 1] == tb[i]);
    }
}

/// No key precedes itself.
pub proof fn lemma_key_lt_irreflexive(a: Seq<char>)
    ensures
        !key_lt(a, a),
{
    lemma_bytes_lt_irreflexive(encode_utf8(a));
}

/// The key order is transitive.
pub proof fn lemma_key_lt_transitive(a: Seq<char>, b: Seq<char>, c: Seq<char>)
    requires
        key_lt(a, b),
        key_lt(b, c),
    ensures
        key_lt(a, c),
{
    lemma_bytes_lt_transitive(encode_utf8(a), encode_utf8(b), encode_utf8(c));
}

/// No two keys precede each other.
pub proof fn lemma_key_lt_asymmetric(a: Seq<char>, b: Seq<char>)
    requires
        key_lt(a, b),
    ensures
        !key_lt(b, a),
{
    if key_lt(b, a) {
        lemma_key_lt_transitive(a, b, a);
        lemma_key_lt_irreflexive(a);
    }
}

/// Of two different keys one precedes the other.
pub proof fn lemma_key_lt_total(a: Seq<char>, b: Seq<char>)
    ensures
        a == b || key_lt(a, b) || key_lt(b, a),
{
    lemma_bytes_lt_total(encode_utf8(a), encode_utf8(b));
    if encode_utf8(a) == encode_utf8(b) {
        encode_utf8_decode_utf8(a);
        encode_utf8_decode_utf8(b);
    }
}

/// Decides how `a` stands to `b` in the key order.
pub fn compare_keys(a: &str, b: &str) -> (r: KeyOrder)
    ensures
        r == KeyOrder::Before <==> key_lt(a@, b@),
        r == KeyOrder::Same <==> a@ == b@,
        r == KeyOrder::After <==> key_lt(b@, a@),
{
    let ab = a.as_bytes();
    let bb = b.as_bytes();
    let n: usize = ab.len();
    let m: usize = bb.len();
    let mut i: usize = 0;
    let mut r = KeyOrder::Same;
    while i < n && i < m && r == KeyOrder::Same
        invariant
            n == ab@.len(),
            m == bb@.len(),
            i <= n,
            i <= m,
            r == KeyOrder::Same ==> ab@.subrange(0, i as int) == bb@.subrange(0, i as int),
            r == KeyOrder::Before ==> precedes_at(ab@, bb@, i as int),
            r == KeyOrder::After ==> precedes_at(bb@, ab@, i as int),
        decreases (n - i) + (if r == KeyOrder::Same { 1int } else { 0int }),
    {
        let x: u8 = ab[i];
        let y: u8 = bb[i];
        if x < y {
            r = KeyOrder::Before;
        } else if y < x {
            r = KeyOrder::After;
        } else {
            assert(ab@.subrange(0, i + 1) =~= ab@.subrange(0, i as int).push(x));
            assert(bb@.subrange(0, i + 1) =~= bb@.subrange(0, i as int).push(y));
            i = i + 1;
        }
    }
    if r == KeyOrder::Same {
        if i < m {
            r = KeyOrder::Before;
        } else if i < n {
            r = KeyOrder::After;
        } else {
            assert(ab@ =~= ab@.subrange(0, i as int));
            assert(bb@ =~= bb@.subrange(0, i as int));
        }
    }
    proof {
        let ea = encode_utf8(a@);
        let eb = encode_utf8(b@);
        assert(ab@ == ea);
        assert(bb@ == eb);
        lemma_key_lt_irreflexive(a@);
        if r == KeyOrder::Same {
            encode_utf8_decode_utf8(a@);
            encode_utf8_decode_utf8(b@);
        } else if r == KeyOrder::Before {
            assert(precedes_at(ea, eb, i as int));
            lemma_key_lt_asymmetric(a@, b@);
        } else {
            assert(precedes_at(eb, ea, i as int));
            lemma_key_lt_asymmetric(b@, a@);
        }
    }
    r
}

} // verus!
