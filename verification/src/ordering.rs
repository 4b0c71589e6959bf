//! The byte order that strings and file names are sorted by.
//!
//! Texts are ordered by their bytes, the first difference deciding and a
//! prefix coming before what extends it.
use vstd::prelude::*;
use vstd::relations::total_ordering;
use vstd::utf8::encode_utf8;

verus! {

/// `a` and `b` agree on their first `k` bytes, and `a` comes before `b` at
/// position `k`: it ends there, or it holds the smaller byte.
pub open spec fn precedes_at(a: Seq<u8>, b: Seq<u8>, k: int) -> bool {
    &&& 0 <= k <= a.len()
    &&& k < b.len()
    &&& forall|i: int| 0 <= i < k ==> a[i] == b[i]
    &&& k == a.len() || a[k] < b[k]
}

/// The strict byte order: `a` comes before `b`.
pub open spec fn bytes_less(a: Seq<u8>, b: Seq<u8>) -> bool {
    exists|k: int| precedes_at(a, b, k)
}

/// The byte order with equality.
pub open spec fn bytes_at_most(a: Seq<u8>, b: Seq<u8>) -> bool {
    a == b || bytes_less(a, b)
}

/// The order of texts: that of their UTF-8 bytes.
pub open spec fn text_less(a: Seq<char>, b: Seq<char>) -> bool {
    bytes_less(encode_utf8(a), encode_utf8(b))
}

/// A byte string never comes before itself.
pub proof fn law_bytes_less_is_irreflexive(a: Seq<u8>)
    ensures
        !bytes_less(a, a),
{
}

/// What comes before something that comes before a third, comes before the third.
pub proof fn law_bytes_less_is_transitive(a: Seq<u8>, b: Seq<u8>, c: Seq<u8>)
    requires
        bytes_less(a, b),
        bytes_less(b, c),
    ensures
        bytes_less(a, c),
{
    let j = choose|k: int| precedes_at(a, b, k);
    let k = choose|k: int| precedes_at(b, c, k);
    if j <= k {
        assert(precedes_at(a, c, j));
    } else {
        assert(precedes_at(a, c, k));
    }
}

/// Of two different byte strings, one comes before the other.
pub proof fn law_bytes_less_is_total(a: Seq<u8>, b: Seq<u8>)
    ensures
        a == b || bytes_less(a, b) || bytes_less(b, a),
{
    if a != b {
        lemma_difference(a, b, 0);
    }
}

/// Searches for the first difference from position `k` on.
proof fn lemma_difference(a: Seq<u8>, b: Seq<u8>, k: int)
    requires
        a != b,
        0 <= k <= a.len(),
        k <= b.len(),
        forall|i: int| 0 <= i < k ==> a[i] == b[i],
    ensures
        bytes_less(a, b) || bytes_less(b, a),
    decreases a.len() - k,
{
    if k == a.len() {
        if k == b.len() {
            assert(a =~= b);
        }
        assert(precedes_at(a, b, k));
    } else if k == b.len() || b[k] < a[k] {
        assert(precedes_at(b, a, k));
    } else if a[k] < b[k] {
        assert(precedes_at(a, b, k));
    } else {
        lemma_difference(a, b, k + 1);
    }
}

/// The byte order is a total ordering.
pub proof fn lemma_bytes_at_most_is_total_ordering()
    ensures
        total_ordering(|a: Seq<u8>, b: Seq<u8>| bytes_at_most(a, b)),
{
    let order = |a: Seq<u8>, b: Seq<u8>| bytes_at_most(a, b);
    assert forall|a: Seq<u8>, b: Seq<u8>| #[trigger] order(a, b) && #[trigger] order(b, a) implies a
        == b by {
        if a != b {
            law_bytes_less_is_transitive(a, b, a);
        }
    }
    assert forall|a: Seq<u8>, b: Seq<u8>, c: Seq<u8>| #[trigger]
        order(a, b) && #[trigger] order(b, c) implies order(a, c) by {
        if a != b && b != c {
            law_bytes_less_is_transitive(a, b, c);
        }
    }
    assert forall|a: Seq<u8>, b: Seq<u8>| #[trigger] order(a, b) || #[trigger] order(b, a) by {
        law_bytes_less_is_total(a, b);
    }
}

/// Two texts with the same bytes are the same text.
pub proof fn lemma_text_bytes_are_injective(a: Seq<char>, b: Seq<char>)
    requires
        encode_utf8(a) == encode_utf8(b),
    ensures
        a == b,
{
    vstd::utf8::encode_utf8_decode_utf8(a);
    vstd::utf8::encode_utf8_decode_utf8(b);
}

/// Whether `a` comes before `b` in the byte order.
pub fn bytes_before(a: &[u8], b: &[u8]) -> (before: bool)
    ensures
        before == bytes_less(a@, b@),
{
    let mut i: usize = 0;
    while i < a.len() && i < b.len()
        invariant
            i <= a@.len(),
            i <= b@.len(),
            forall|j: int| 0 <= j < i ==> a@[j] == b@[j],
        decreases a@.len() - i,
    {
        if a[i] < b[i] {
            assert(precedes_at(a@, b@, i as int));
            return true;
        }
        if b[i] < a[i] {
            proof {
                assert(precedes_at(b@, a@, i as int));
                lemma_bytes_less_is_asymmetric(b@, a@);
            }
            return false;
        }
        i += 1;
    }
    if i < b.len() {
        assert(precedes_at(a@, b@, i as int));
        true
    } else {
        proof {
            if i < a.len() {
                assert(precedes_at(b@, a@, i as int));
                lemma_bytes_less_is_asymmetric(b@, a@);
            } else {
                assert(a@ =~= b@);
            }
        }
        false
    }
}

proof fn lemma_bytes_less_is_asymmetric(a: Seq<u8>, b: Seq<u8>)
    requires
        bytes_less(a, b),
    ensures
        !bytes_less(b, a),
{
    if bytes_less(b, a) {
        law_bytes_less_is_transitive(a, b, a);
    }
}

/// Whether the text `a` comes before the text `b`.
pub fn text_before(a: &str, b: &str) -> (before: bool)
    ensures
        before == text_less(a@, b@),
{
    bytes_before(a.as_bytes(), b.as_bytes())
}

/// Whether two texts are the same.
pub fn same_text(a: &str, b: &str) -> (same: bool)
    ensures
        same == (a@ == b@),
{
    a.to_owned() == b.to_owned()
}

/// Where two byte strings differ first, the smaller byte comes first, whatever
/// stands behind it.
pub proof fn law_the_first_difference_decides(
    common: Seq<u8>,
    x: u8,
    y: u8,
    a: Seq<u8>,
    b: Seq<u8>,
)
    requires
        x < y,
    ensures
        bytes_less(common.push(x) + a, common.push(y) + b),
        !bytes_less(common.push(y) + b, common.push(x) + a),
        bytes_at_most(common.push(x) + a, common.push(y) + b),
        !bytes_at_most(common.push(y) + b, common.push(x) + a),
{
    let first = common.push(x) + a;
    let second = common.push(y) + b;
    let k = common.len() as int;
    assert(first[k] == x && second[k] == y);
    assert(precedes_at(first, second, k)) by {
        assert forall|i: int| 0 <= i < k implies first[i] == second[i] by {
            assert(first[i] == common[i] && second[i] == common[i]);
        }
    }
    lemma_bytes_less_is_asymmetric(first, second);
}

/// A byte string comes before what extends it.
pub proof fn law_a_prefix_comes_first(a: Seq<u8>, b: Seq<u8>)
    requires
        b.len() > 0,
    ensures
        bytes_less(a, a + b),
        !bytes_less(a + b, a),
        bytes_at_most(a, a + b),
        !bytes_at_most(a + b, a),
{
    assert(precedes_at(a, a + b, a.len() as int));
    lemma_bytes_less_is_asymmetric(a, a + b);
}

/// Texts are ordered as their UTF-8 bytes are, and nothing comes before itself.
pub proof fn law_texts_are_ordered_by_their_bytes(a: Seq<char>, b: Seq<char>)
    ensures
        text_less(a, b) <==> bytes_less(encode_utf8(a), encode_utf8(b)),
        bytes_at_most(encode_utf8(a), encode_utf8(b)) <==> a == b || text_less(a, b),
{
    if encode_utf8(a) == encode_utf8(b) {
        lemma_text_bytes_are_injective(a, b);
    }
}

} // verus!
