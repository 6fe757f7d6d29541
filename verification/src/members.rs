//! The parser builds each object by inserting every member at its place in
//! the canonical order. The object it builds depends on the members alone,
//! not on the order in which they are written.
use vstd::prelude::*;
use crate::value::JsonValue;
use crate::order::{key_equal, key_less, lemma_key_less_asymmetric, lemma_key_order_antisymmetric};
use crate::parse::{ParseError, has_key, insert_position, skip_ws_from, lemma_skip_ws_from, string_at, lemma_string_at, value_at, members_from, object_at};
use crate::domain::{names_ascending, lemma_insert_ascending, well_formed, lemma_items_well_formed, lemma_members_well_formed, law_parse_output_well_formed};
use crate::parse::parse_json;
use vstd::utf8::valid_utf8;

verus! {

broadcast use vstd::seq_lib::group_to_multiset_ensures;

/// Insert a member at its place in the canonical order, as the parser does.
pub open spec fn insert_member(
    acc: Seq<(Seq<u8>, JsonValue)>,
    m: (Seq<u8>, JsonValue),
) -> Seq<(Seq<u8>, JsonValue)> {
    acc.insert(insert_position(acc, m.0, 0), m)
}

/// The members of an object read in the order written, each inserted at its
/// place.
pub open spec fn insert_all(written: Seq<(Seq<u8>, JsonValue)>) -> Seq<(Seq<u8>, JsonValue)>
    decreases written.len(),
{
    if written.len() == 0 {
        Seq::empty()
    } else {
        insert_member(insert_all(written.drop_last()), written.last())
    }
}

/// No two members have the same name in the canonical order.
pub open spec fn distinct_names(written: Seq<(Seq<u8>, JsonValue)>) -> bool {
    forall|i: int, j: int|
        0 <= i < j < written.len() ==> !key_equal(#[trigger] written[i].0, #[trigger] written[j].0)
}

/// Inserting members with distinct names gives an ascending sequence that
/// holds exactly those members.
proof fn lemma_insert_all(written: Seq<(Seq<u8>, JsonValue)>)
    requires
        distinct_names(written),
    ensures
        names_ascending(insert_all(written)),
        insert_all(written).to_multiset() == written.to_multiset(),
    decreases written.len(),
{
    if written.len() > 0 {
        let prefix = written.drop_last();
        let m = written.last();
        assert(distinct_names(prefix)) by {
            assert forall|i: int, j: int| 0 <= i < j < prefix.len() implies !key_equal(
                #[trigger] prefix[i].0,
                #[trigger] prefix[j].0,
            ) by {
                assert(prefix[i] == written[i] && prefix[j] == written[j]);
            }
        }
        lemma_insert_all(prefix);
        let acc = insert_all(prefix);
        assert(!has_key(acc, m.0)) by {
            if has_key(acc, m.0) {
                let i = choose|i: int| 0 <= i < acc.len() && key_equal(m.0, #[trigger] acc[i].0);
                assert(acc.contains(acc[i]));
                assert(acc.to_multiset().count(acc[i]) > 0);
                assert(prefix.contains(acc[i]));
                let k = choose|k: int| 0 <= k < prefix.len() && prefix[k] == acc[i];
                assert(written[k] == prefix[k]);
                assert(written[written.len() - 1] == m);
                assert(!key_equal(written[k].0, written[written.len() - 1].0));
                lemma_key_order_antisymmetric(m.0, acc[i].0);
            }
        }
        lemma_insert_ascending(acc, m.0, m.1);
        let at = insert_position(acc, m.0, 0);
        crate::domain::lemma_insert_position(acc, m.0, 0);
        assert(acc.insert(at, m).to_multiset() == acc.to_multiset().insert(m));
        assert(written =~= prefix.push(m));
        assert(written.to_multiset() == prefix.to_multiset().insert(m));
    }
}

/// Two sequences whose names ascend and that hold the same members are equal.
proof fn lemma_ascending_unique(m1: Seq<(Seq<u8>, JsonValue)>, m2: Seq<(Seq<u8>, JsonValue)>)
    requires
        names_ascending(m1),
        names_ascending(m2),
        m1.to_multiset() == m2.to_multiset(),
    ensures
        m1 == m2,
    decreases m1.len(),
{
    broadcast use vstd::multiset::group_multiset_axioms;

    vstd::seq_lib::to_multiset_len(m1);
    vstd::seq_lib::to_multiset_len(m2);
    assert(m1.len() == m2.len());
    if m1.len() == 0 {
        assert(m1 =~= m2);
    } else {
        let x = m1[0];
        let y = m2[0];
        assert(m1.contains(x));
        assert(m2.to_multiset().count(x) > 0);
        assert(m2.contains(x));
        let j = choose|j: int| 0 <= j < m2.len() && m2[j] == x;
        assert(m2.contains(y));
        assert(m1.to_multiset().count(y) > 0);
        assert(m1.contains(y));
        let i = choose|i: int| 0 <= i < m1.len() && m1[i] == y;
        if x != y {
            assert(key_less(m1[0].0, m1[i].0));
            assert(key_less(m2[0].0, m2[j].0));
            lemma_key_less_asymmetric(x.0, y.0);
        }
        let r1 = m1.remove(0);
        let r2 = m2.remove(0);
        assert(r1.to_multiset() == m1.to_multiset().remove(x));
        assert(r2.to_multiset() == m2.to_multiset().remove(y));
        assert(names_ascending(r1)) by {
            assert forall|a: int, b: int| 0 <= a < b < r1.len() implies key_less(
                #[trigger] r1[a].0,
                #[trigger] r1[b].0,
            ) by {
                assert(r1[a] == m1[a + 1] && r1[b] == m1[b + 1]);
            }
        }
        assert(names_ascending(r2)) by {
            assert forall|a: int, b: int| 0 <= a < b < r2.len() implies key_less(
                #[trigger] r2[a].0,
                #[trigger] r2[b].0,
            ) by {
                assert(r2[a] == m2[a + 1] && r2[b] == m2[b + 1]);
            }
        }
        lemma_ascending_unique(r1, r2);
        assert(m1 =~= m2) by {
            assert forall|k: int| 0 <= k < m1.len() implies m1[k] == m2[k] by {
                if k > 0 {
                    assert(m1[k] == r1[k - 1] && m2[k] == r2[k - 1]);
                }
            }
        }
    }
}

/// Law: two objects whose names ascend in the canonical order, as the
/// parser's objects do, are equal when they hold the same members: an object
/// is determined by its members alone.
pub proof fn law_ascending_members_unique(
    m1: Seq<(Seq<u8>, JsonValue)>,
    m2: Seq<(Seq<u8>, JsonValue)>,
)
    requires
        names_ascending(m1),
        names_ascending(m2),
        m1.to_multiset() == m2.to_multiset(),
    ensures
        m1 == m2,
{
    lemma_ascending_unique(m1, m2);
}

/// Law: members with distinct names, inserted one by one at their place as
/// the parser inserts them, give the same object whatever order they are
/// written in; so reordering the members of a document changes neither its
/// value nor its canonical form nor its hash.
pub proof fn law_member_order_irrelevant(
    w1: Seq<(Seq<u8>, JsonValue)>,
    w2: Seq<(Seq<u8>, JsonValue)>,
)
    requires
        distinct_names(w1),
        distinct_names(w2),
        w1.to_multiset() == w2.to_multiset(),
    ensures
        insert_all(w1) == insert_all(w2),
        names_ascending(insert_all(w1)),
{
    lemma_insert_all(w1);
    lemma_insert_all(w2);
    lemma_ascending_unique(insert_all(w1), insert_all(w2));
}

/// The members of an object at `p` in the order written, each value as the
/// parser reads it, and the position after the object. Repeated names are
/// kept.
pub open spec fn object_written(b: Seq<u8>, p: int, depth: int) -> Result<(Seq<(Seq<u8>, JsonValue)>, int), ParseError> {
    if !(0 <= p < b.len() && b[p] == 0x7B) {
        Err(ParseError::Syntax)
    } else {
        let q = skip_ws_from(b, p + 1);
        if q < b.len() && b[q] == 0x7D {
            Ok((Seq::empty(), q + 1))
        } else {
            members_written(b, q, depth, Seq::empty())
        }
    }
}

/// The members from position `q` on, in the order written, after the
/// members `w`.
pub open spec fn members_written(
    b: Seq<u8>,
    q: int,
    depth: int,
    w: Seq<(Seq<u8>, JsonValue)>,
) -> Result<(Seq<(Seq<u8>, JsonValue)>, int), ParseError>
    decreases b.len() - q,
{
    if q < 0 || q > b.len() {
        Err(ParseError::Syntax)
    } else {
        let r = skip_ws_from(b, q);
        proof {
            lemma_skip_ws_from(b, q);
        }
        match string_at(b, r) {
            Err(x) => Err(x),
            Ok((key, k)) => {
                let c = skip_ws_from(b, k);
                proof {
                    lemma_string_at(b, r);
                    lemma_skip_ws_from(b, k);
                }
                if !(c < b.len() && b[c] == 0x3A) {
                    Err(ParseError::Syntax)
                } else {
                    let vs = skip_ws_from(b, c + 1);
                    proof {
                        lemma_skip_ws_from(b, c + 1);
                    }
                    match value_at(b, vs, depth + 1) {
                        Err(x) => Err(x),
                        Ok((v, e)) => {
                            let s = skip_ws_from(b, e);
                            proof {
                                lemma_skip_ws_from(b, e);
                            }
                            if e <= vs {
                                Err(ParseError::Syntax)
                            } else if s < b.len() && b[s] == 0x2C {
                                members_written(b, s + 1, depth, w.push((key, v)))
                            } else if s < b.len() && b[s] == 0x7D {
                                Ok((w.push((key, v)), s + 1))
                            } else {
                                Err(ParseError::Syntax)
                            }
                        },
                    }
                }
            },
        }
    }
}

/// A name that no member of `insert_all(w)` has is distinct from every name
/// of `w`.
proof fn lemma_new_name_distinct(w: Seq<(Seq<u8>, JsonValue)>, m: (Seq<u8>, JsonValue))
    requires
        distinct_names(w),
        !has_key(insert_all(w), m.0),
    ensures
        distinct_names(w.push(m)),
{
    lemma_insert_all(w);
    let w2 = w.push(m);
    assert forall|i: int, j: int| 0 <= i < j < w2.len() implies !key_equal(
        #[trigger] w2[i].0,
        #[trigger] w2[j].0,
    ) by {
        if j < w.len() {
            assert(w2[i] == w[i] && w2[j] == w[j]);
        } else {
            assert(w2[i] == w[i] && w2[j] == m);
            assert(w.contains(w[i]));
            assert(w.to_multiset().count(w[i]) > 0);
            assert(insert_all(w).to_multiset().count(w[i]) > 0);
            assert(insert_all(w).contains(w[i]));
            let k = choose|k: int| 0 <= k < insert_all(w).len() && insert_all(w)[k] == w[i];
            lemma_key_order_antisymmetric(w[i].0, m.0);
            assert(!key_equal(m.0, insert_all(w)[k].0));
        }
    }
}

/// Reading members with `insert_all(w)` before them gives the object of the
/// members written, `w` and those after.
proof fn lemma_members_written(b: Seq<u8>, q: int, depth: int, w: Seq<(Seq<u8>, JsonValue)>)
    requires
        distinct_names(w),
    ensures
        members_from(b, q, depth, insert_all(w)) matches Ok((j, e)) ==> (members_written(b, q, depth, w) matches Ok((w2, e2))
            && e2 == e && distinct_names(w2) && j == JsonValue::Object(insert_all(w2))),
    decreases b.len() - q,
{
    if 0 <= q <= b.len() {
        let r = skip_ws_from(b, q);
        lemma_skip_ws_from(b, q);
        lemma_string_at(b, r);
        if let Ok((key, k)) = string_at(b, r) {
            let c = skip_ws_from(b, k);
            lemma_skip_ws_from(b, k);
            if c < b.len() && b[c] == 0x3A {
                let vs = skip_ws_from(b, c + 1);
                lemma_skip_ws_from(b, c + 1);
                if let Ok((v, e)) = value_at(b, vs, depth + 1) {
                    let s = skip_ws_from(b, e);
                    lemma_skip_ws_from(b, e);
                    let acc = insert_all(w);
                    if !has_key(acc, key) {
                        lemma_new_name_distinct(w, (key, v));
                        let w1 = w.push((key, v));
                        assert(w1.drop_last() =~= w);
                        assert(insert_all(w1) == acc.insert(insert_position(acc, key, 0), (key, v)));
                        if e > vs && s < b.len() && b[s] == 0x2C {
                            lemma_members_written(b, s + 1, depth, w1);
                        }
                    }
                }
            }
        }
    }
}

/// Law: an object the parser reads holds exactly the members as written,
/// each inserted at its place in the canonical order; their names are
/// distinct, so by [`law_member_order_irrelevant`] writing them in another
/// order gives the same object.
pub proof fn law_object_holds_members_as_written(b: Seq<u8>, p: int, depth: int)
    ensures
        object_at(b, p, depth) matches Ok((j, e)) ==> (object_written(b, p, depth) matches Ok((w, e2))
            && e2 == e && distinct_names(w) && j == JsonValue::Object(insert_all(w))
            && insert_all(w).to_multiset() == w.to_multiset() && names_ascending(insert_all(w))),
{
    if 0 <= p < b.len() && b[p] == 0x7B {
        let q = skip_ws_from(b, p + 1);
        lemma_skip_ws_from(b, p + 1);
        let empty = Seq::<(Seq<u8>, JsonValue)>::empty();
        assert(insert_all(empty) == empty);
        if !(q < b.len() && b[q] == 0x7D) {
            lemma_members_written(b, q, depth, empty);
        }
        if let Ok((w, e2)) = object_written(b, p, depth) {
            if distinct_names(w) {
                lemma_insert_all(w);
            }
        }
    }
}

/// A value with the members of every object, at every depth, put in the
/// canonical order as the parser puts them: two values are the same up to
/// the order of object members when their sorted forms are equal.
pub open spec fn sorted_form(j: JsonValue) -> JsonValue
    decreases j,
{
    match j {
        JsonValue::Array(items) => JsonValue::Array(sorted_items(items)),
        JsonValue::Object(ms) => JsonValue::Object(insert_all(sorted_members(ms))),
        _ => j,
    }
}

/// The sorted forms of a sequence of values, element by element.
pub open spec fn sorted_items(s: Seq<JsonValue>) -> Seq<JsonValue>
    decreases s,
{
    if s.len() == 0 {
        Seq::empty()
    } else {
        sorted_items(s.subrange(0, s.len() - 1)).push(sorted_form(s[s.len() - 1]))
    }
}

/// The members with the sorted forms of their values, in the same order.
pub open spec fn sorted_members(s: Seq<(Seq<u8>, JsonValue)>) -> Seq<(Seq<u8>, JsonValue)>
    decreases s,
{
    if s.len() == 0 {
        Seq::empty()
    } else {
        sorted_members(s.subrange(0, s.len() - 1)).push((s[s.len() - 1].0, sorted_form(s[s.len() - 1].1)))
    }
}

proof fn lemma_sorted_items_same(s: Seq<JsonValue>)
    requires
        forall|i: int| 0 <= i < s.len() ==> sorted_form(#[trigger] s[i]) == s[i],
    ensures
        sorted_items(s) == s,
    decreases s.len(),
{
    if s.len() > 0 {
        let t = s.subrange(0, s.len() - 1);
        assert forall|i: int| 0 <= i < t.len() implies sorted_form(#[trigger] t[i]) == t[i] by {
            assert(t[i] == s[i]);
        }
        lemma_sorted_items_same(t);
        assert(sorted_form(s[s.len() - 1]) == s[s.len() - 1]);
        assert(t.push(s[s.len() - 1]) =~= s);
    }
}

proof fn lemma_sorted_members_same(s: Seq<(Seq<u8>, JsonValue)>)
    requires
        forall|i: int| 0 <= i < s.len() ==> sorted_form(#[trigger] s[i].1) == s[i].1,
    ensures
        sorted_members(s) == s,
    decreases s.len(),
{
    if s.len() > 0 {
        let t = s.subrange(0, s.len() - 1);
        assert forall|i: int| 0 <= i < t.len() implies sorted_form(#[trigger] t[i].1) == t[i].1 by {
            assert(t[i] == s[i]);
        }
        lemma_sorted_members_same(t);
        assert(sorted_form(s[s.len() - 1].1) == s[s.len() - 1].1);
        assert(t.push((s[s.len() - 1].0, s[s.len() - 1].1)) =~= s);
    }
}

/// Members whose names ascend are already in their place.
proof fn lemma_insert_all_ascending(ms: Seq<(Seq<u8>, JsonValue)>)
    requires
        names_ascending(ms),
    ensures
        insert_all(ms) == ms,
{
    assert forall|i: int, j: int| 0 <= i < j < ms.len() implies !key_equal(
        #[trigger] ms[i].0,
        #[trigger] ms[j].0,
    ) by {
        lemma_key_less_asymmetric(ms[i].0, ms[j].0);
    }
    lemma_insert_all(ms);
    lemma_ascending_unique(insert_all(ms), ms);
}

/// A well-formed value is its own sorted form.
proof fn lemma_well_formed_sorted(j: JsonValue, depth: int)
    requires
        well_formed(j, depth),
    ensures
        sorted_form(j) == j,
    decreases j,
{
    match j {
        JsonValue::Array(items) => {
            lemma_items_well_formed(items, depth + 1);
            assert forall|i: int| 0 <= i < items.len() implies sorted_form(#[trigger] items[i]) == items[i] by {
                assert(decreases_to!(j => items[i]));
                lemma_well_formed_sorted(items[i], depth + 1);
            }
            lemma_sorted_items_same(items);
        },
        JsonValue::Object(ms) => {
            lemma_members_well_formed(ms, depth + 1);
            assert forall|i: int| 0 <= i < ms.len() implies sorted_form(#[trigger] ms[i].1) == ms[i].1 by {
                assert(valid_utf8(ms[i].0));
                assert(decreases_to!(j => ms[i].1));
                lemma_well_formed_sorted(ms[i].1, depth + 1);
            }
            lemma_sorted_members_same(ms);
            lemma_insert_all_ascending(ms);
        },
        _ => {},
    }
}

/// Law: every value the parser accepts is its own sorted form: its members
/// are already in the order the parser gives every object.
pub proof fn law_parse_output_sorted(b: Seq<u8>)
    ensures
        parse_json(b) matches Ok(v) ==> sorted_form(v) == v,
{
    law_parse_output_well_formed(b);
    if let Ok(v) = parse_json(b) {
        lemma_well_formed_sorted(v, 0);
    }
}

} // verus!
