//! The values the parser produces: admissible integers, UTF-8 strings and
//! names, objects whose names ascend strictly in the canonical order, and
//! nesting within the parser's depth limit.
use vstd::prelude::*;
use vstd::utf8::{valid_utf8, encode_scalar, is_scalar, encode_utf8, encode_utf8_valid_utf8, valid_utf8_concat};
use crate::value::{JsonValue, MAX_SAFE_INT, admissible, lemma_all_admissible, lemma_members_admissible};
use crate::order::{key_less, key_equal, lemma_key_less_asymmetric, lemma_key_trichotomy, lemma_key_less_transitive};
use crate::parse::{ParseError, MAX_DEPTH, is_digit, hex_value, hex4_at, short_escape, unicode_escape_at, escape_at, string_body, string_at, lemma_string_at, skip_ws_from, lemma_skip_ws_from, digits_end, lemma_digits_end, lemma_digits_value_nonneg, number_at, value_at, array_at, items_from, object_at, members_from, has_key, insert_position, parse_json};

verus! {

/// The member names ascend strictly in the canonical order, so no name
/// occurs twice.
pub open spec fn names_ascending(ms: Seq<(Seq<u8>, JsonValue)>) -> bool {
    forall|i: int, j: int| 0 <= i < j < ms.len() ==> key_less(#[trigger] ms[i].0, #[trigger] ms[j].0)
}

/// A value as the parser produces it at nesting `depth`.
pub open spec fn well_formed(j: JsonValue, depth: int) -> bool
    decreases j,
{
    &&& 0 <= depth <= MAX_DEPTH
    &&& match j {
        JsonValue::Int(n) => -MAX_SAFE_INT <= n <= MAX_SAFE_INT,
        JsonValue::Str(s) => valid_utf8(s),
        JsonValue::Array(items) => items_well_formed(items, depth + 1),
        JsonValue::Object(ms) => members_well_formed(ms, depth + 1) && names_ascending(ms),
        _ => true,
    }
}

/// Every element is well formed at `depth`.
pub open spec fn items_well_formed(s: Seq<JsonValue>, depth: int) -> bool
    decreases s,
{
    s.len() > 0 ==> items_well_formed(s.subrange(0, s.len() - 1), depth) && well_formed(
        s[s.len() - 1],
        depth,
    )
}

/// Every name is UTF-8 and every member value is well formed at `depth`.
pub open spec fn members_well_formed(s: Seq<(Seq<u8>, JsonValue)>, depth: int) -> bool
    decreases s,
{
    s.len() > 0 ==> members_well_formed(s.subrange(0, s.len() - 1), depth) && valid_utf8(
        s[s.len() - 1].0,
    ) && well_formed(s[s.len() - 1].1, depth)
}

pub proof fn lemma_items_well_formed(s: Seq<JsonValue>, depth: int)
    ensures
        items_well_formed(s, depth) <==> forall|i: int|
            0 <= i < s.len() ==> well_formed(#[trigger] s[i], depth),
    decreases s.len(),
{
    if s.len() > 0 {
        let t = s.subrange(0, s.len() - 1);
        lemma_items_well_formed(t, depth);
        assert forall|i: int| 0 <= i < t.len() implies t[i] == s[i] by {}
    }
}

pub proof fn lemma_members_well_formed(s: Seq<(Seq<u8>, JsonValue)>, depth: int)
    ensures
        members_well_formed(s, depth) <==> forall|i: int|
            0 <= i < s.len() ==> valid_utf8(#[trigger] s[i].0) && well_formed(s[i].1, depth),
    decreases s.len(),
{
    if s.len() > 0 {
        let t = s.subrange(0, s.len() - 1);
        lemma_members_well_formed(t, depth);
        if members_well_formed(s, depth) {
            assert forall|i: int| 0 <= i < s.len() implies valid_utf8(#[trigger] s[i].0) && well_formed(s[i].1, depth) by {
                if i < t.len() {
                    assert(t[i] == s[i]);
                    assert(valid_utf8(t[i].0));
                }
            }
        }
        if forall|i: int| 0 <= i < s.len() ==> valid_utf8(#[trigger] s[i].0) && well_formed(s[i].1, depth) {
            assert forall|i: int| 0 <= i < t.len() implies valid_utf8(#[trigger] t[i].0) && well_formed(t[i].1, depth) by {
                assert(t[i] == s[i]);
                assert(valid_utf8(s[i].0));
            }
            assert(valid_utf8(s[s.len() - 1].0));
        }
    }
}

/// The UTF-8 encoding of a scalar is valid UTF-8.
pub proof fn lemma_encode_scalar_valid(cp: u32)
    requires
        is_scalar(cp),
    ensures
        valid_utf8(encode_scalar(cp)),
{
    let c = cp as char;
    assert((c as u32) == cp);
    encode_utf8_valid_utf8(seq![c]);
    reveal_with_fuel(encode_utf8, 2);
    assert(encode_utf8(seq![c]) =~= encode_scalar(cp));
}

/// A single ASCII byte is valid UTF-8.
pub proof fn lemma_ascii_valid(c: u8)
    requires
        c < 0x80,
    ensures
        valid_utf8(seq![c]),
{
    reveal_with_fuel(valid_utf8, 2);
    assert(vstd::utf8::pop_first_scalar(seq![c]) =~= Seq::<u8>::empty());
}

/// A `\u` escape yields a scalar.
pub proof fn lemma_unicode_escape_scalar(b: Seq<u8>, p: int)
    ensures
        unicode_escape_at(b, p) matches Ok((cp, next)) ==> is_scalar(cp) && next > p,
{
    match hex4_at(b, p) {
        Some(hi) => {
            assert(0 <= hex_value(b[p]) < 16 && 0 <= hex_value(b[p + 1]) < 16 && 0 <= hex_value(b[p + 2]) < 16 && 0 <= hex_value(b[p + 3]) < 16);
            assert(0 <= hi < 0x10000);
            if 0xD800 <= hi < 0xDC00 {
                match hex4_at(b, p + 6) {
                    Some(lo) => {
                        assert(0 <= hex_value(b[p + 6]) < 16 && 0 <= hex_value(b[p + 7]) < 16 && 0 <= hex_value(b[p + 8]) < 16 && 0 <= hex_value(b[p + 9]) < 16);
                    },
                    None => {},
                }
            }
        },
        None => {},
    }
}

/// An escape sequence stands for valid UTF-8.
pub proof fn lemma_escape_valid(b: Seq<u8>, q: int)
    ensures
        escape_at(b, q) matches Ok((x, next)) ==> valid_utf8(x),
{
    if q + 1 < b.len() {
        if b[q + 1] == 0x75 {
            lemma_unicode_escape_scalar(b, q + 2);
            match unicode_escape_at(b, q + 2) {
                Ok((cp, next)) => lemma_encode_scalar_valid(cp),
                Err(_) => {},
            }
        } else {
            match short_escape(b[q + 1]) {
                Some(x) => lemma_ascii_valid(x),
                None => {},
            }
        }
    }
}

/// The content of a string literal is valid UTF-8.
pub proof fn lemma_string_body_valid(b: Seq<u8>, q: int, acc: Seq<u8>)
    requires
        valid_utf8(acc),
    ensures
        string_body(b, q, acc) matches Ok((s, e)) ==> valid_utf8(s),
    decreases b.len() - q,
{
    if 0 <= q < b.len() {
        let c = b[q];
        if c == 0x22 {
        } else if c == 0x5C {
            lemma_escape_valid(b, q);
            match escape_at(b, q) {
                Ok((x, next)) => if q < next <= b.len() {
                    valid_utf8_concat(acc, x);
                    lemma_string_body_valid(b, next, acc + x);
                },
                Err(_) => {},
            }
        } else if c < 0x20 {
        } else if c < 0x80 {
            lemma_ascii_valid(c);
            valid_utf8_concat(acc, seq![c]);
            assert(acc + seq![c] =~= acc.push(c));
            lemma_string_body_valid(b, q + 1, acc.push(c));
        } else if c < 0xC0 {
        } else {
            let w = crate::utf16::lead_width(c);
            if q + w <= b.len() && valid_utf8(b.subrange(q, q + w)) {
                valid_utf8_concat(acc, b.subrange(q, q + w));
                lemma_string_body_valid(b, q + w, acc + b.subrange(q, q + w));
            }
        }
    }
}

/// The content of a string literal is valid UTF-8.
pub proof fn lemma_string_at_valid(b: Seq<u8>, p: int)
    ensures
        string_at(b, p) matches Ok((s, e)) ==> valid_utf8(s) && p < e <= b.len(),
{
    lemma_string_at(b, p);
    if 0 <= p < b.len() && b[p] == 0x22 {
        assert(valid_utf8(Seq::<u8>::empty()));
        lemma_string_body_valid(b, p + 1, Seq::empty());
    }
}

/// The first position from `j` at which [`insert_position`] stops.
pub proof fn lemma_insert_position(acc: Seq<(Seq<u8>, JsonValue)>, key: Seq<u8>, j: int)
    requires
        0 <= j <= acc.len(),
    ensures
        j <= insert_position(acc, key, j) <= acc.len(),
        forall|i: int| j <= i < insert_position(acc, key, j) ==> !key_less(key, #[trigger] acc[i].0),
        insert_position(acc, key, j) < acc.len() ==> key_less(
            key,
            acc[insert_position(acc, key, j)].0,
        ),
    decreases acc.len() - j,
{
    if j < acc.len() && !key_less(key, acc[j].0) {
        lemma_insert_position(acc, key, j + 1);
    }
}

/// Inserting a new name where the parser inserts it keeps names ascending.
pub proof fn lemma_insert_ascending(acc: Seq<(Seq<u8>, JsonValue)>, key: Seq<u8>, v: JsonValue)
    requires
        names_ascending(acc),
        !has_key(acc, key),
    ensures
        names_ascending(acc.insert(insert_position(acc, key, 0), (key, v))),
{
    let at = insert_position(acc, key, 0);
    lemma_insert_position(acc, key, 0);
    let r = acc.insert(at, (key, v));
    assert forall|i: int| 0 <= i < at implies key_less(#[trigger] acc[i].0, key) by {
        lemma_key_trichotomy(key, acc[i].0);
        if key_equal(key, acc[i].0) {
            assert(has_key(acc, key));
        }
    }
    assert forall|i: int| at <= i < acc.len() implies key_less(key, #[trigger] acc[i].0) by {
        if i > at {
            lemma_key_less_transitive(key, acc[at].0, acc[i].0);
        }
    }
    assert forall|i: int, j: int| 0 <= i < j < r.len() implies key_less(#[trigger] r[i].0, #[trigger] r[j].0) by {
        if j < at {
            assert(r[i] == acc[i] && r[j] == acc[j]);
        } else if j == at {
            assert(r[i] == acc[i]);
        } else if i < at {
            assert(r[i] == acc[i] && r[j] == acc[j - 1]);
            lemma_key_less_transitive(acc[i].0, key, acc[j - 1].0);
        } else if i == at {
            assert(r[j] == acc[j - 1]);
        } else {
            assert(r[i] == acc[i - 1] && r[j] == acc[j - 1]);
        }
    }
}

/// Inserting a new member where the parser inserts it keeps the members
/// well formed and their names ascending.
pub proof fn lemma_insert_well_formed(
    acc: Seq<(Seq<u8>, JsonValue)>,
    key: Seq<u8>,
    v: JsonValue,
    depth: int,
)
    requires
        members_well_formed(acc, depth),
        names_ascending(acc),
        !has_key(acc, key),
        valid_utf8(key),
        well_formed(v, depth),
    ensures
        members_well_formed(acc.insert(insert_position(acc, key, 0), (key, v)), depth),
        names_ascending(acc.insert(insert_position(acc, key, 0), (key, v))),
{
    let at = insert_position(acc, key, 0);
    lemma_insert_position(acc, key, 0);
    let acc2 = acc.insert(at, (key, v));
    lemma_insert_ascending(acc, key, v);
    lemma_members_well_formed(acc, depth);
    lemma_members_well_formed(acc2, depth);
    assert forall|i: int| 0 <= i < acc2.len() implies valid_utf8(#[trigger] acc2[i].0) && well_formed(acc2[i].1, depth) by {
        if i < at {
            assert(acc2[i] == acc[i]);
        } else if i > at {
            assert(acc2[i] == acc[i - 1]);
        }
    }
}

/// A value read by the parser is well formed, and ends after it starts.
#[verifier::spinoff_prover]
#[verifier::rlimit(30)]
pub proof fn lemma_value_well_formed(b: Seq<u8>, p: int, depth: int)
    requires
        0 <= depth,
    ensures
        value_at(b, p, depth) matches Ok((v, e)) ==> well_formed(v, depth) && p < e <= b.len(),
    decreases b.len() - p, 1int,
{
    if depth <= MAX_DEPTH && 0 <= p < b.len() {
        let c = b[p];
        if c == 0x22 {
            lemma_string_at_valid(b, p);
        } else if c == 0x5B {
            lemma_array_well_formed(b, p, depth);
        } else if c == 0x7B {
            lemma_object_well_formed(b, p, depth);
        } else if c == 0x2D || is_digit(c) {
            lemma_number_at(b, p);
        }
    }
}

/// A number read by the parser is admissible and ends after it starts.
pub proof fn lemma_number_at(b: Seq<u8>, p: int)
    ensures
        number_at(b, p) matches Ok((v, e)) ==> (v matches JsonValue::Int(n) && -MAX_SAFE_INT <= n <= MAX_SAFE_INT) && p < e <= b.len(),
{
    let q = if 0 <= p < b.len() && b[p] == 0x2D { p + 1 } else { p };
    if 0 <= q < b.len() && is_digit(b[q]) {
        lemma_digits_end(b, q);
        let e = if b[q] == 0x30 { q + 1 } else { digits_end(b, q) };
        let s = b.subrange(q, e);
        lemma_digits_value_nonneg(s);
    }
}

pub proof fn lemma_array_well_formed(b: Seq<u8>, p: int, depth: int)
    requires
        0 <= depth <= MAX_DEPTH,
    ensures
        array_at(b, p, depth) matches Ok((v, e)) ==> well_formed(v, depth) && p < e <= b.len(),
    decreases b.len() - p, 0int,
{
    if 0 <= p < b.len() && b[p] == 0x5B {
        let q = skip_ws_from(b, p + 1);
        lemma_skip_ws_from(b, p + 1);
        if !(q < b.len() && b[q] == 0x5D) {
            lemma_items_from_well_formed(b, q, depth, Seq::empty());
        }
    }
}

pub proof fn lemma_items_from_well_formed(b: Seq<u8>, q: int, depth: int, acc: Seq<JsonValue>)
    requires
        0 <= depth <= MAX_DEPTH,
        items_well_formed(acc, depth + 1),
    ensures
        items_from(b, q, depth, acc) matches Ok((v, e)) ==> well_formed(v, depth) && q < e <= b.len(),
    decreases b.len() - q, 2int,
{
    if 0 <= q <= b.len() {
        let r = skip_ws_from(b, q);
        lemma_skip_ws_from(b, q);
        lemma_value_well_formed(b, r, depth + 1);
        match value_at(b, r, depth + 1) {
            Ok((v, e)) => {
                let s = skip_ws_from(b, e);
                lemma_skip_ws_from(b, e);
                assert(acc.push(v).subrange(0, acc.len() as int) =~= acc);
                if e > r && s < b.len() && b[s] == 0x2C {
                    lemma_items_from_well_formed(b, s + 1, depth, acc.push(v));
                }
            },
            Err(_) => {},
        }
    }
}

pub proof fn lemma_object_well_formed(b: Seq<u8>, p: int, depth: int)
    requires
        0 <= depth <= MAX_DEPTH,
    ensures
        object_at(b, p, depth) matches Ok((v, e)) ==> well_formed(v, depth) && p < e <= b.len(),
    decreases b.len() - p, 0int,
{
    if 0 <= p < b.len() && b[p] == 0x7B {
        let q = skip_ws_from(b, p + 1);
        lemma_skip_ws_from(b, p + 1);
        if !(q < b.len() && b[q] == 0x7D) {
            lemma_members_from_well_formed(b, q, depth, Seq::empty());
        }
    }
}

pub proof fn lemma_members_from_well_formed(
    b: Seq<u8>,
    q: int,
    depth: int,
    acc: Seq<(Seq<u8>, JsonValue)>,
)
    requires
        0 <= depth <= MAX_DEPTH,
        members_well_formed(acc, depth + 1),
        names_ascending(acc),
    ensures
        members_from(b, q, depth, acc) matches Ok((v, e)) ==> well_formed(v, depth) && q < e <= b.len(),
    decreases b.len() - q, 2int,
{
    if 0 <= q <= b.len() {
        let r = skip_ws_from(b, q);
        lemma_skip_ws_from(b, q);
        lemma_string_at_valid(b, r);
        match string_at(b, r) {
            Ok((key, k)) => {
                let c = skip_ws_from(b, k);
                lemma_skip_ws_from(b, k);
                if c < b.len() && b[c] == 0x3A {
                    let vs = skip_ws_from(b, c + 1);
                    lemma_skip_ws_from(b, c + 1);
                    lemma_value_well_formed(b, vs, depth + 1);
                    match value_at(b, vs, depth + 1) {
                        Ok((v, e)) => {
                            let s = skip_ws_from(b, e);
                            lemma_skip_ws_from(b, e);
                            if !has_key(acc, key) {
                                let at = insert_position(acc, key, 0);
                                let acc2 = acc.insert(at, (key, v));
                                lemma_insert_well_formed(acc, key, v, depth + 1);
                                if e > vs && s < b.len() && b[s] == 0x2C {
                                    lemma_members_from_well_formed(b, s + 1, depth, acc2);
                                }
                            }
                        },
                        Err(_) => {},
                    }
                }
            },
            Err(_) => {},
        }
    }
}

/// Law: every value the parser accepts is well formed: its integers are
/// admissible, its strings and names are UTF-8, the names of each object
/// ascend strictly in the canonical order (so none repeats), and its nesting
/// is within [`MAX_DEPTH`].
pub proof fn law_parse_output_well_formed(b: Seq<u8>)
    ensures
        parse_json(b) matches Ok(v) ==> well_formed(v, 0),
{
    lemma_value_well_formed(b, skip_ws_from(b, 0), 0);
}

/// A well-formed value is admissible.
proof fn lemma_well_formed_admissible(j: JsonValue, depth: int)
    requires
        well_formed(j, depth),
    ensures
        admissible(j),
    decreases j,
{
    match j {
        JsonValue::Array(items) => {
            lemma_items_well_formed(items, depth + 1);
            assert forall|i: int| 0 <= i < items.len() implies admissible(#[trigger] items[i]) by {
                assert(decreases_to!(j => items[i]));
                lemma_well_formed_admissible(items[i], depth + 1);
            }
            lemma_all_admissible(items);
        },
        JsonValue::Object(ms) => {
            lemma_members_well_formed(ms, depth + 1);
            assert forall|i: int| 0 <= i < ms.len() implies admissible(#[trigger] ms[i].1) by {
                assert(valid_utf8(ms[i].0));
                assert(decreases_to!(j => ms[i].1));
                lemma_well_formed_admissible(ms[i].1, depth + 1);
            }
            lemma_members_admissible(ms);
        },
        _ => {},
    }
}

/// Law: every value the parser accepts passes the admissibility check of
/// [`crate::value::Value::is_admissible`].
pub proof fn law_parse_output_admissible(b: Seq<u8>)
    ensures
        parse_json(b) matches Ok(v) ==> admissible(v),
{
    law_parse_output_well_formed(b);
    if let Ok(v) = parse_json(b) {
        lemma_well_formed_admissible(v, 0);
    }
}

} // verus!
