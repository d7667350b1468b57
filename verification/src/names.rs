//! The order of signal and coil names.
//!
//! Names are compared as `str` compares: byte by byte over their UTF-8
//! encodings, a proper prefix coming before every extension of it.

use vstd::prelude::*;
use vstd::utf8::encode_utf8;

verus! {

/// `a` and `b` agree on their first `k` bytes, and at position `k` either
/// `a` has ended while `b` goes on, or `a` holds the smaller byte.
pub open spec fn bytes_diverge_at(a: Seq<u8>, b: Seq<u8>, k: int) -> bool {
    &&& 0 <= k <= a.len()
    &&& k < b.len()
    &&& forall|i: int| 0 <= i < k ==> a[i] == b[i]
    &&& (k == a.len() || a[k] < b[k])
}

/// Strict lexicographic order on byte sequences.
pub open spec fn bytes_precede(a: Seq<u8>, b: Seq<u8>) -> bool {
    exists|k: int| bytes_diverge_at(a, b, k)
}

/// Strict order on names: the lexicographic order of their UTF-8 encodings.
pub open spec fn name_precedes(a: Seq<char>, b: Seq<char>) -> bool {
    bytes_precede(encode_utf8(a), encode_utf8(b))
}

/// No byte sequence precedes itself.
pub proof fn lemma_bytes_irreflexive(a: Seq<u8>)
    ensures
        !bytes_precede(a, a),
{
}

/// The byte order is transitive.
pub proof fn lemma_bytes_transitive(a: Seq<u8>, b: Seq<u8>, c: Seq<u8>)
    requires
        bytes_precede(a, b),
        bytes_precede(b, c),
    ensures
        bytes_precede(a, c),
{
    let k1 = choose|k: int| bytes_diverge_at(a, b, k);
    let k2 = choose|k: int| bytes_diverge_at(b, c, k);
    let k = if k1 <= k2 { k1 } else { k2 };
    assert(bytes_diverge_at(a, c, k));
}

/// Two byte sequences that agree from position `k` on neither precede the
/// other; two that differ somewhere at or after `k`, and agree before it,
/// are ordered one way or the other.
proof fn lemma_bytes_ordered_from(a: Seq<u8>, b: Seq<u8>, k: int)
    requires
        0 <= k <= a.len(),
        k <= b.len(),
        forall|i: int| 0 <= i < k ==> a[i] == b[i],
        a != b,
    ensures
        bytes_precede(a, b) || bytes_precede(b, a),
    decreases a.len() - k,
{
    if k == a.len() {
        if k == b.len() {
            assert(a =~= b);
        } else {
            assert(bytes_diverge_at(a, b, k));
        }
    } else if k == b.len() {
        assert(bytes_diverge_at(b, a, k));
    } else if a[k] < b[k] {
        assert(bytes_diverge_at(a, b, k));
    } else if b[k] < a[k] {
        assert(bytes_diverge_at(b, a, k));
    } else {
        lemma_bytes_ordered_from(a, b, k + 1);
    }
}

/// Any two distinct byte sequences are ordered one way or the other.
pub proof fn lemma_bytes_total(a: Seq<u8>, b: Seq<u8>)
    requires
        a != b,
    ensures
        bytes_precede(a, b) || bytes_precede(b, a),
{
    lemma_bytes_ordered_from(a, b, 0);
}

/// No name precedes itself.
pub proof fn lemma_name_order_irreflexive(a: Seq<char>)
    ensures
        !name_precedes(a, a),
{
    lemma_bytes_irreflexive(encode_utf8(a));
}

/// The name order is transitive.
pub proof fn lemma_name_order_transitive(a: Seq<char>, b: Seq<char>, c: Seq<char>)
    requires
        name_precedes(a, b),
        name_precedes(b, c),
    ensures
        name_precedes(a, c),
{
    lemma_bytes_transitive(encode_utf8(a), encode_utf8(b), encode_utf8(c));
}

/// Of two names, at most one precedes the other.
pub proof fn lemma_name_order_asymmetric(a: Seq<char>, b: Seq<char>)
    requires
        name_precedes(a, b),
    ensures
        !name_precedes(b, a),
        a != b,
{
    if name_precedes(b, a) {
        lemma_name_order_transitive(a, b, a);
    }
    lemma_name_order_irreflexive(a);
}

/// Names with the same UTF-8 encoding are the same name.
pub proof fn lemma_encoding_injective(a: Seq<char>, b: Seq<char>)
    requires
        encode_utf8(a) == encode_utf8(b),
    ensures
        a == b,
{
    vstd::utf8::encode_utf8_decode_utf8(a);
    vstd::utf8::encode_utf8_decode_utf8(b);
}

/// Any two distinct names are ordered one way or the other.
pub proof fn lemma_name_order_total(a: Seq<char>, b: Seq<char>)
    requires
        a != b,
    ensures
        name_precedes(a, b) || name_precedes(b, a),
{
    if encode_utf8(a) == encode_utf8(b) {
        lemma_encoding_injective(a, b);
    }
    lemma_bytes_total(encode_utf8(a), encode_utf8(b));
}

/// How one name stands to another in the name order.
#[derive(Clone, Copy, Debug, PartialEq, Eq)]
pub enum NameOrder {
    /// The first name precedes the second.
    Before,
    /// The two names are the same.
    Same,
    /// The second name precedes the first.
    After,
}

/// Compares two names in the name order.
pub fn compare_names(a: &str, b: &str) -> (r: NameOrder)
    ensures
        r is Before <==> name_precedes(a@, b@),
        r is Same <==> a@ == b@,
        r is After <==> name_precedes(b@, a@),
{
    let x = a.as_bytes();
    let y = b.as_bytes();
    let mut k: usize = 0;
    while k < x.len() && k < y.len()
        invariant
            x@ == encode_utf8(a@),
            y@ == encode_utf8(b@),
            k <= x@.len(),
            k <= y@.len(),
            forall|i: int| 0 <= i < k ==> x@[i] == y@[i],
        decreases x@.len() - k,
    {
        if x[k] < y[k] {
            proof {
                assert(bytes_diverge_at(x@, y@, k as int));
                lemma_name_order_asymmetric(a@, b@);
            }
            return NameOrder::Before;
        }
        if y[k] < x[k] {
            proof {
                assert(bytes_diverge_at(y@, x@, k as int));
                lemma_name_order_asymmetric(b@, a@);
            }
            return NameOrder::After;
        }
        k += 1;
    }
    if x.len() < y.len() {
        proof {
            assert(bytes_diverge_at(x@, y@, k as int));
            lemma_name_order_asymmetric(a@, b@);
        }
        NameOrder::Before
    } else if y.len() < x.len() {
        proof {
            assert(bytes_diverge_at(y@, x@, k as int));
            lemma_name_order_asymmetric(b@, a@);
        }
        NameOrder::After
    } else {
        proof {
            assert(x@ =~= y@);
            lemma_encoding_injective(a@, b@);
            lemma_name_order_irreflexive(a@);
        }
        NameOrder::Same
    }
}

/// Whether two names are the same.
pub fn same_name(a: &str, b: &str) -> (r: bool)
    ensures
        r == (a@ == b@),
{
    match compare_names(a, b) {
        NameOrder::Same => true,
        _ => false,
    }
}

} // verus!
