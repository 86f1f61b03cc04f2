//! Byte-wise lexicographic order of strings, the order in which the
//! access-control tables are kept and listed.

use vstd::prelude::*;
use crate::text::{utf8};

verus! {

broadcast use vstd::utf8::encode_utf8_decode_utf8;

/// `a` sorts strictly before `b`, byte by byte, a proper prefix first.
pub open spec fn bytes_lt(a: Seq<u8>, b: Seq<u8>) -> bool
    decreases a.len(),
{
    if a.len() == 0 {
        b.len() > 0
    } else if b.len() == 0 {
        false
    } else if a[0] < b[0] {
        true
    } else if a[0] > b[0] {
        false
    } else {
        bytes_lt(a.drop_first(), b.drop_first())
    }
}

/// The order is irreflexive.
pub proof fn lemma_bytes_lt_irreflexive(a: Seq<u8>)
    ensures
        !bytes_lt(a, a),
    decreases a.len(),
{
    if a.len() > 0 {
        lemma_bytes_lt_irreflexive(a.drop_first());
    }
}

/// The order is transitive.
pub proof fn lemma_bytes_lt_transitive(a: Seq<u8>, b: Seq<u8>, c: Seq<u8>)
    requires
        bytes_lt(a, b),
        bytes_lt(b, c),
    ensures
        bytes_lt(a, c),
    decreases a.len(),
{
    if a.len() > 0 && b.len() > 0 && c.len() > 0 && a[0] == b[0] && b[0] == c[0] {
        lemma_bytes_lt_transitive(a.drop_first(), b.drop_first(), c.drop_first());
    }
}

/// Two different byte strings are ordered one way or the other.
pub proof fn lemma_bytes_lt_total(a: Seq<u8>, b: Seq<u8>)
    ensures
        a == b || bytes_lt(a, b) || bytes_lt(b, a),
    decreases a.len(),
{
    if a.len() > 0 && b.len() > 0 && a[0] == b[0] {
        lemma_bytes_lt_total(a.drop_first(), b.drop_first());
        if a.drop_first() == b.drop_first() {
            assert(a =~= seq![a[0]] + a.drop_first());
            assert(b =~= seq![b[0]] + b.drop_first());
        }
    } else if a.len() == 0 && b.len() == 0 {
        assert(a =~= b);
    }
}

/// The order is asymmetric.
pub proof fn lemma_bytes_lt_asymmetric(a: Seq<u8>, b: Seq<u8>)
    requires
        bytes_lt(a, b),
    ensures
        !bytes_lt(b, a),
{
    if bytes_lt(b, a) {
        lemma_bytes_lt_transitive(a, b, a);
        lemma_bytes_lt_irreflexive(a);
    }
}

proof fn lemma_bytes_lt_skip(a: Seq<u8>, b: Seq<u8>, i: int)
    requires
        0 <= i <= a.len(),
        i <= b.len(),
        a.take(i) == b.take(i),
    ensures
        bytes_lt(a, b) == bytes_lt(a.skip(i), b.skip(i)),
    decreases i,
{
    if i > 0 {
        assert(a[0] == a.take(i)[0]);
        assert(b[0] == b.take(i)[0]);
        assert(a.drop_first().take(i - 1) =~= a.take(i).drop_first());
        assert(b.drop_first().take(i - 1) =~= b.take(i).drop_first());
        lemma_bytes_lt_skip(a.drop_first(), b.drop_first(), i - 1);
        assert(a.drop_first().skip(i - 1) =~= a.skip(i));
        assert(b.drop_first().skip(i - 1) =~= b.skip(i));
    } else {
        assert(a.skip(0) =~= a);
        assert(b.skip(0) =~= b);
    }
}

/// The outcome of comparing two values.
#[derive(Clone, Copy, PartialEq, Eq, Debug)]
pub enum Rank {
    Below,
    Same,
    Above,
}

/// Compares two byte strings in lexicographic order.
pub fn compare_bytes(a: &[u8], b: &[u8]) -> (r: Rank)
    ensures
        r == Rank::Below <==> bytes_lt(a@, b@),
        r == Rank::Above <==> bytes_lt(b@, a@),
        r == Rank::Same <==> a@ == b@,
{
    proof {
        lemma_bytes_lt_irreflexive(a@);
        lemma_bytes_lt_total(a@, b@);
    }
    let mut i: usize = 0;
    while i < a.len() && i < b.len()
        invariant
            i <= a.len(),
            i <= b.len(),
            a@.take(i as int) == b@.take(i as int),
        decreases a.len() - i,
    {
        if a[i] < b[i] {
            proof {
                lemma_bytes_lt_skip(a@, b@, i as int);
                lemma_bytes_lt_skip(b@, a@, i as int);
                assert(a@[i as int] != b@[i as int]);
                assert(a@ != b@);
            }
            return Rank::Below;
        }
        if a[i] > b[i] {
            proof {
                lemma_bytes_lt_skip(a@, b@, i as int);
                lemma_bytes_lt_skip(b@, a@, i as int);
                assert(a@[i as int] != b@[i as int]);
                assert(a@ != b@);
            }
            return Rank::Above;
        }
        assert(a@.take(i as int + 1) =~= a@.take(i as int).push(a@[i as int]));
        assert(b@.take(i as int + 1) =~= b@.take(i as int).push(b@[i as int]));
        i = i + 1;
    }
    proof {
        lemma_bytes_lt_skip(a@, b@, i as int);
        lemma_bytes_lt_skip(b@, a@, i as int);
    }
    if a.len() == b.len() {
        assert(a@ =~= a@.take(i as int));
        assert(b@ =~= b@.take(i as int));
        Rank::Same
    } else if a.len() < b.len() {
        Rank::Below
    } else {
        Rank::Above
    }
}

/// `a` sorts strictly before `b` in the byte order of their UTF-8 encodings.
pub open spec fn text_lt(a: Seq<char>, b: Seq<char>) -> bool {
    bytes_lt(utf8(a), utf8(b))
}

/// Compares two strings by the bytes of their UTF-8 encodings.
pub fn compare_text(a: &str, b: &str) -> (r: Rank)
    ensures
        r == Rank::Below <==> text_lt(a@, b@),
        r == Rank::Above <==> text_lt(b@, a@),
        r == Rank::Same <==> a@ == b@,
{
    let r = compare_bytes(a.as_bytes(), b.as_bytes());
    proof {
        assert(vstd::utf8::decode_utf8(utf8(a@)) == a@);
        assert(vstd::utf8::decode_utf8(utf8(b@)) == b@);
    }
    r
}

/// The text order is transitive.
pub proof fn lemma_text_lt_transitive(a: Seq<char>, b: Seq<char>, c: Seq<char>)
    requires
        text_lt(a, b),
        text_lt(b, c),
    ensures
        text_lt(a, c),
{
    lemma_bytes_lt_transitive(utf8(a), utf8(b), utf8(c));
}

/// The text order is irreflexive and asymmetric, and total on different strings.
pub proof fn lemma_text_lt_strict_total(a: Seq<char>, b: Seq<char>)
    ensures
        !text_lt(a, a),
        text_lt(a, b) ==> !text_lt(b, a),
        a == b || text_lt(a, b) || text_lt(b, a),
{
    lemma_bytes_lt_irreflexive(utf8(a));
    if text_lt(a, b) {
        lemma_bytes_lt_asymmetric(utf8(a), utf8(b));
    }
    lemma_bytes_lt_total(utf8(a), utf8(b));
    assert(vstd::utf8::decode_utf8(utf8(a)) == a);
    assert(vstd::utf8::decode_utf8(utf8(b)) == b);
}

} // verus!
