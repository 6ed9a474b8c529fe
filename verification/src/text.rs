//! The order of text values: byte-wise lexicographic, as `Ord` orders `str`,
//! `[u8]` and `Vec<u8>`.
use vstd::prelude::*;

verus! {

broadcast use vstd::seq_lib::group_to_multiset_ensures;

/// `a <= b` in lexicographic order of bytes: the first differing byte decides,
/// and a proper prefix comes first.
pub open spec fn bytes_le(a: Seq<u8>, b: Seq<u8>) -> bool
    decreases a.len(),
{
    if a.len() == 0 {
        true
    } else if b.len() == 0 {
        false
    } else if a[0] != b[0] {
        a[0] < b[0]
    } else {
        bytes_le(a.drop_first(), b.drop_first())
    }
}

/// Every byte string is `<=` every byte string after it.
pub open spec fn bytes_sorted(s: Seq<Seq<u8>>) -> bool {
    forall|i: int, j: int| 0 <= i < j < s.len() ==> bytes_le(#[trigger] s[i], #[trigger] s[j])
}

/// Every byte string is valid UTF-8.
pub open spec fn all_utf8(s: Seq<Seq<u8>>) -> bool {
    forall|i: int| 0 <= i < s.len() ==> vstd::utf8::valid_utf8(#[trigger] s[i])
}

proof fn lemma_bytes_le_laws(a: Seq<u8>, b: Seq<u8>, c: Seq<u8>)
    ensures
        bytes_le(a, a),
        bytes_le(a, b) || bytes_le(b, a),
        bytes_le(a, b) && bytes_le(b, a) ==> a == b,
        bytes_le(a, b) && bytes_le(b, c) ==> bytes_le(a, c),
    decreases a.len(),
{
    if a.len() > 0 && b.len() > 0 && c.len() > 0 {
        lemma_bytes_le_laws(a.drop_first(), b.drop_first(), c.drop_first());
    } else if a.len() > 0 && b.len() > 0 {
        lemma_bytes_le_laws(a.drop_first(), b.drop_first(), b.drop_first());
    } else if a.len() > 0 {
        lemma_bytes_le_laws(a.drop_first(), a.drop_first(), a.drop_first());
    }
    if a.len() > 0 && b.len() > 0 && a[0] == b[0] && bytes_le(a, b) && bytes_le(b, a) {
        assert(a =~= seq![a[0]] + a.drop_first());
        assert(b =~= seq![b[0]] + b.drop_first());
    }
    if a.len() == 0 && b.len() == 0 {
        assert(a =~= b);
    }
}

/// Lexicographic order of bytes is a total order: two sorted sequences of the
/// same byte strings are equal, so sorting text has one result.
pub proof fn lemma_bytes_sorted_unique(x: Seq<Seq<u8>>, y: Seq<Seq<u8>>)
    requires
        bytes_sorted(x),
        bytes_sorted(y),
        x.to_multiset() == y.to_multiset(),
    ensures
        x == y,
{
    let leq = |a: Seq<u8>, b: Seq<u8>| bytes_le(a, b);
    assert forall|a: Seq<u8>| #[trigger] leq(a, a) by {
        lemma_bytes_le_laws(a, a, a);
    }
    assert forall|a: Seq<u8>, b: Seq<u8>| #[trigger] leq(a, b) && #[trigger] leq(b, a) implies a == b by {
        lemma_bytes_le_laws(a, b, a);
    }
    assert forall|a: Seq<u8>, b: Seq<u8>, c: Seq<u8>| #[trigger] leq(a, b) && #[trigger] leq(b, c) implies leq(a, c) by {
        lemma_bytes_le_laws(a, b, c);
    }
    assert forall|a: Seq<u8>, b: Seq<u8>| #[trigger] leq(a, b) || #[trigger] leq(b, a) by {
        lemma_bytes_le_laws(a, b, a);
    }
    assert(vstd::relations::sorted_by(x, leq));
    assert(vstd::relations::sorted_by(y, leq));
    vstd::seq_lib::lemma_sorted_unique(x, y, leq);
}

/// `std::str::from_utf8`, of which only whether it succeeds is kept: it does
/// exactly when the bytes are valid UTF-8.
#[verifier::external_body]
pub(crate) fn is_utf8(bytes: &[u8]) -> (r: bool)
    ensures
        r == vstd::utf8::valid_utf8(bytes@),
{
    std::str::from_utf8(bytes).is_ok()
}

} // verus!
