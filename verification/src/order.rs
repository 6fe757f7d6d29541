//! The canonical order of object member names: RFC 8785 compares names by
//! their UTF-16 code units, which differs from UTF-8 byte order.
use vstd::prelude::*;
use core::cmp::Ordering;
use crate::utf16::{utf16_of, utf16_units, common_prefix_len, law_utf16_of_valid, lemma_utf16_encode_injective};
use vstd::utf8::{valid_utf8, decode_utf8, decode_utf8_encode_utf8};

verus! {

/// Lexicographic order of code-unit sequences; a proper prefix comes first.
pub open spec fn unit_order(a: Seq<u16>, b: Seq<u16>) -> Ordering
    decreases a.len(),
{
    if a.len() == 0 {
        if b.len() == 0 {
            Ordering::Equal
        } else {
            Ordering::Less
        }
    } else if b.len() == 0 {
        Ordering::Greater
    } else if a[0] < b[0] {
        Ordering::Less
    } else if a[0] > b[0] {
        Ordering::Greater
    } else {
        unit_order(a.drop_first(), b.drop_first())
    }
}

/// The canonical order of two member names given as UTF-8 bytes.
pub open spec fn key_order(a: Seq<u8>, b: Seq<u8>) -> Ordering {
    unit_order(utf16_of(a), utf16_of(b))
}

/// `a` orders strictly before `b` as a member name.
pub open spec fn key_less(a: Seq<u8>, b: Seq<u8>) -> bool {
    key_order(a, b) == Ordering::Less
}

/// `a` and `b` are the same member name in the canonical order.
pub open spec fn key_equal(a: Seq<u8>, b: Seq<u8>) -> bool {
    key_order(a, b) == Ordering::Equal
}

/// After a common prefix, the order is decided by the first differing unit,
/// or by the lengths when one sequence is exhausted.
proof fn lemma_unit_order_after_prefix(a: Seq<u16>, b: Seq<u16>)
    ensures
        forall|i: int|
            0 <= i <= a.len() && i <= b.len() && #[trigger] a.take(i) == b.take(i) ==> {
                &&& (i < a.len() && i < b.len() && a[i] < b[i]) ==> unit_order(a, b)
                    == Ordering::Less
                &&& (i < a.len() && i < b.len() && a[i] > b[i]) ==> unit_order(a, b)
                    == Ordering::Greater
                &&& (i == a.len() && i == b.len()) ==> unit_order(a, b) == Ordering::Equal
                &&& (i == a.len() && i < b.len()) ==> unit_order(a, b) == Ordering::Less
                &&& (i < a.len() && i == b.len()) ==> unit_order(a, b) == Ordering::Greater
            },
    decreases a.len(),
{
    if a.len() > 0 && b.len() > 0 {
        lemma_unit_order_after_prefix(a.drop_first(), b.drop_first());
        assert forall|i: int|
            0 <= i <= a.len() && i <= b.len() && #[trigger] a.take(i) == b.take(i) implies {
                &&& (i < a.len() && i < b.len() && a[i] < b[i]) ==> unit_order(a, b)
                    == Ordering::Less
                &&& (i < a.len() && i < b.len() && a[i] > b[i]) ==> unit_order(a, b)
                    == Ordering::Greater
                &&& (i == a.len() && i == b.len()) ==> unit_order(a, b) == Ordering::Equal
                &&& (i == a.len() && i < b.len()) ==> unit_order(a, b) == Ordering::Less
                &&& (i < a.len() && i == b.len()) ==> unit_order(a, b) == Ordering::Greater
            } by {
            if i > 0 {
                assert(a[0] == a.take(i)[0]);
                assert(b[0] == b.take(i)[0]);
                let j = i - 1;
                assert(a.drop_first().take(j) == a.take(i).drop_first());
                assert(b.drop_first().take(j) == b.take(i).drop_first());
                assert(a.drop_first().take(j) == b.drop_first().take(j));
            }
        }
    }
}

/// Compare two member names given as UTF-8 bytes by their UTF-16 code units,
/// as RFC 8785 requires. The bytes are not checked for being UTF-8.
pub fn cmp_canonical(a: &[u8], b: &[u8]) -> (r: Ordering)
    ensures
        r == key_order(a@, b@),
{
    let ua = utf16_units(a);
    let ub = utf16_units(b);
    let n = if ua.len() < ub.len() {
        ua.len()
    } else {
        ub.len()
    };
    let i = common_prefix_len(&ua, &ub, n);
    proof {
        lemma_unit_order_after_prefix(ua@, ub@);
    }
    if i < n {
        let x = ua[i];
        let y = ub[i];
        if x < y {
            Ordering::Less
        } else {
            Ordering::Greater
        }
    } else if ua.len() == ub.len() {
        Ordering::Equal
    } else if ua.len() < ub.len() {
        Ordering::Less
    } else {
        Ordering::Greater
    }
}

/// Swapping the arguments of [`unit_order`] reverses the result.
pub proof fn lemma_unit_order_antisymmetric(a: Seq<u16>, b: Seq<u16>)
    ensures
        unit_order(a, b) == Ordering::Less <==> unit_order(b, a) == Ordering::Greater,
        unit_order(a, b) == Ordering::Equal <==> unit_order(b, a) == Ordering::Equal,
        unit_order(a, b) == Ordering::Greater <==> unit_order(b, a) == Ordering::Less,
    decreases a.len(),
{
    if a.len() > 0 && b.len() > 0 {
        lemma_unit_order_antisymmetric(a.drop_first(), b.drop_first());
    }
}

/// [`unit_order`] finds two sequences equal exactly when they are equal.
pub proof fn lemma_unit_order_equal(a: Seq<u16>, b: Seq<u16>)
    ensures
        unit_order(a, b) == Ordering::Equal <==> a == b,
    decreases a.len(),
{
    if a.len() > 0 && b.len() > 0 {
        lemma_unit_order_equal(a.drop_first(), b.drop_first());
        if a[0] == b[0] && a.drop_first() == b.drop_first() {
            assert(a == seq![a[0]] + a.drop_first());
            assert(b == seq![b[0]] + b.drop_first());
        }
        if a == b {
            assert(a.drop_first() == b.drop_first());
        }
    } else if a.len() == 0 && b.len() == 0 {
        assert(a =~= b);
    }
}

/// [`unit_order`] is transitive, for the strict and the non-strict order.
pub proof fn lemma_unit_order_transitive(a: Seq<u16>, b: Seq<u16>, c: Seq<u16>)
    ensures
        unit_order(a, b) != Ordering::Greater && unit_order(b, c) != Ordering::Greater
            ==> unit_order(a, c) != Ordering::Greater,
        unit_order(a, b) == Ordering::Less && unit_order(b, c) == Ordering::Less ==> unit_order(
            a,
            c,
        ) == Ordering::Less,
    decreases a.len(),
{
    lemma_unit_order_equal(a, b);
    lemma_unit_order_equal(b, c);
    lemma_unit_order_equal(a, c);
    if a.len() > 0 && b.len() > 0 && c.len() > 0 {
        lemma_unit_order_transitive(a.drop_first(), b.drop_first(), c.drop_first());
    }
}

/// Law: comparing two names in the other order gives the reverse result.
pub proof fn lemma_key_order_antisymmetric(a: Seq<u8>, b: Seq<u8>)
    ensures
        key_order(a, b) == Ordering::Less <==> key_order(b, a) == Ordering::Greater,
        key_order(a, b) == Ordering::Equal <==> key_order(b, a) == Ordering::Equal,
        key_order(a, b) == Ordering::Greater <==> key_order(b, a) == Ordering::Less,
{
    lemma_unit_order_antisymmetric(utf16_of(a), utf16_of(b));
}

/// Law: the canonical order of names is transitive.
pub proof fn lemma_key_order_transitive(a: Seq<u8>, b: Seq<u8>, c: Seq<u8>)
    ensures
        key_order(a, b) != Ordering::Greater && key_order(b, c) != Ordering::Greater ==> key_order(
            a,
            c,
        ) != Ordering::Greater,
        key_order(a, b) == Ordering::Less && key_order(b, c) == Ordering::Less ==> key_order(a, c)
            == Ordering::Less,
{
    lemma_unit_order_transitive(utf16_of(a), utf16_of(b), utf16_of(c));
}

/// Law: two names compare equal exactly when their code units are equal;
/// in particular every name is equal to itself.
pub proof fn lemma_key_order_equal(a: Seq<u8>, b: Seq<u8>)
    ensures
        key_order(a, b) == Ordering::Equal <==> utf16_of(a) == utf16_of(b),
        key_order(a, a) == Ordering::Equal,
{
    lemma_unit_order_equal(utf16_of(a), utf16_of(b));
    lemma_unit_order_equal(utf16_of(a), utf16_of(a));
}

/// A name that orders before another is neither equal to it nor after it.
pub proof fn lemma_key_less_asymmetric(a: Seq<u8>, b: Seq<u8>)
    ensures
        key_less(a, b) ==> !key_less(b, a) && !key_equal(a, b) && !key_equal(b, a),
{
    lemma_key_order_antisymmetric(a, b);
}

/// Any two names are ordered one way or the other, or are equal.
pub proof fn lemma_key_trichotomy(a: Seq<u8>, b: Seq<u8>)
    ensures
        key_less(a, b) || key_equal(a, b) || key_less(b, a),
{
    lemma_key_order_antisymmetric(a, b);
}

/// The strict order of names is transitive.
pub proof fn lemma_key_less_transitive(a: Seq<u8>, b: Seq<u8>, c: Seq<u8>)
    ensures
        key_less(a, b) && key_less(b, c) ==> key_less(a, c),
{
    lemma_key_order_transitive(a, b, c);
}

/// Law: two UTF-8 member names are equal in the canonical order exactly
/// when they are the same bytes, so duplicate detection by the order finds
/// exactly the repeated names.
pub proof fn law_key_equal_exact(a: Seq<u8>, b: Seq<u8>)
    requires
        valid_utf8(a),
        valid_utf8(b),
    ensures
        key_equal(a, b) <==> a == b,
{
    lemma_unit_order_equal(utf16_of(a), utf16_of(b));
    law_utf16_of_valid(a);
    law_utf16_of_valid(b);
    if key_equal(a, b) {
        lemma_utf16_encode_injective(decode_utf8(a), decode_utf8(b));
        decode_utf8_encode_utf8(a);
        decode_utf8_encode_utf8(b);
    }
}

} // verus!
