//! The value of a document as written: every object keeps its members in
//! the order they appear, repeated names included. The parser's value is the
//! sorted form of the value as written, so documents that differ only in the
//! order of object members, or in whitespace, have the same value.
use vstd::prelude::*;
use crate::value::JsonValue;
use crate::parse::{ParseError, MAX_DEPTH, is_digit, matches_at, skip_ws_from, lemma_skip_ws_from, string_at, lemma_string_at, number_at, value_at, array_at, items_from, object_at, members_from, insert_position, has_key, parse_json};
use crate::members::{sorted_form, sorted_items, sorted_members, insert_all, insert_member};

verus! {

/// A value at `p` as written, nested `depth` levels deep, and the position
/// after it.
pub open spec fn written_at(b: Seq<u8>, p: int, depth: int) -> Result<(JsonValue, int), ParseError>
    decreases b.len() - p, 1int,
{
    if depth > MAX_DEPTH {
        Err(ParseError::DepthExceeded)
    } else if p < 0 || p >= b.len() {
        Err(ParseError::Syntax)
    } else {
        let c = b[p];
        if c == 0x6E {
            if matches_at(b, p, seq![0x6Eu8, 0x75, 0x6C, 0x6C]) {
                Ok((JsonValue::Null, p + 4))
            } else {
                Err(ParseError::Syntax)
            }
        } else if c == 0x74 {
            if matches_at(b, p, seq![0x74u8, 0x72, 0x75, 0x65]) {
                Ok((JsonValue::Bool(true), p + 4))
            } else {
                Err(ParseError::Syntax)
            }
        } else if c == 0x66 {
            if matches_at(b, p, seq![0x66u8, 0x61, 0x6C, 0x73, 0x65]) {
                Ok((JsonValue::Bool(false), p + 5))
            } else {
                Err(ParseError::Syntax)
            }
        } else if c == 0x22 {
            match string_at(b, p) {
                Ok((s, e)) => Ok((JsonValue::Str(s), e)),
                Err(x) => Err(x),
            }
        } else if c == 0x5B {
            written_array_at(b, p, depth)
        } else if c == 0x7B {
            written_object_at(b, p, depth)
        } else if c == 0x2D || is_digit(c) {
            number_at(b, p)
        } else {
            Err(ParseError::Syntax)
        }
    }
}

/// An array at `p` as written, and the position after it.
pub open spec fn written_array_at(b: Seq<u8>, p: int, depth: int) -> Result<(JsonValue, int), ParseError>
    decreases b.len() - p, 0int,
{
    if !(0 <= p < b.len() && b[p] == 0x5B) {
        Err(ParseError::Syntax)
    } else {
        let q = skip_ws_from(b, p + 1);
        proof {
            lemma_skip_ws_from(b, p + 1);
        }
        if q < b.len() && b[q] == 0x5D {
            Ok((JsonValue::Array(Seq::empty()), q + 1))
        } else {
            written_items_from(b, q, depth, Seq::empty())
        }
    }
}

/// The rest of an array from `q` as written, after the elements `acc`.
pub open spec fn written_items_from(b: Seq<u8>, q: int, depth: int, acc: Seq<JsonValue>) -> Result<
    (JsonValue, int),
    ParseError,
>
    decreases b.len() - q, 2int,
{
    if q < 0 || q > b.len() {
        Err(ParseError::Syntax)
    } else {
        let r = skip_ws_from(b, q);
        proof {
            lemma_skip_ws_from(b, q);
        }
        match written_at(b, r, depth + 1) {
            Err(x) => Err(x),
            Ok((v, e)) => {
                let s = skip_ws_from(b, e);
                proof {
                    lemma_skip_ws_from(b, e);
                }
                if e <= r {
                    Err(ParseError::Syntax)
                } else if s < b.len() && b[s] == 0x2C {
                    written_items_from(b, s + 1, depth, acc.push(v))
                } else if s < b.len() && b[s] == 0x5D {
                    Ok((JsonValue::Array(acc.push(v)), s + 1))
                } else {
                    Err(ParseError::Syntax)
                }
            },
        }
    }
}

/// An object at `p` as written, and the position after it.
pub open spec fn written_object_at(b: Seq<u8>, p: int, depth: int) -> Result<(JsonValue, int), ParseError>
    decreases b.len() - p, 0int,
{
    if !(0 <= p < b.len() && b[p] == 0x7B) {
        Err(ParseError::Syntax)
    } else {
        let q = skip_ws_from(b, p + 1);
        proof {
            lemma_skip_ws_from(b, p + 1);
        }
        if q < b.len() && b[q] == 0x7D {
            Ok((JsonValue::Object(Seq::empty()), q + 1))
        } else {
            written_members_from(b, q, depth, Seq::empty())
        }
    }
}

/// The rest of an object from `q` as written, after the members `acc`.
pub open spec fn written_members_from(
    b: Seq<u8>,
    q: int,
    depth: int,
    acc: Seq<(Seq<u8>, JsonValue)>,
) -> Result<(JsonValue, int), ParseError>
    decreases b.len() - q, 2int,
{
    if q < 0 || q > b.len() {
        Err(ParseError::Syntax)
    } else {
        let r = skip_ws_from(b, q);
        proof {
            lemma_skip_ws_from(b, q);
        }
        match string_at(b, r) {
            Err(x) => Err(x),
            Ok((key, k)) => {
                let c = skip_ws_from(b, k);
                proof {
                    lemma_string_at(b, r);
                    lemma_skip_ws_from(b, k);
                }
                if !(c < b.len() && b[c] == 0x3A) {
                    Err(ParseError::Syntax)
                } else {
                    let vs = skip_ws_from(b, c + 1);
                    proof {
                        lemma_skip_ws_from(b, c + 1);
                    }
                    match written_at(b, vs, depth + 1) {
                        Err(x) => Err(x),
                        Ok((v, e)) => {
                            let s = skip_ws_from(b, e);
                            proof {
                                lemma_skip_ws_from(b, e);
                            }
                            if e <= vs {
                                Err(ParseError::Syntax)
                            } else if s < b.len() && b[s] == 0x2C {
                                written_members_from(b, s + 1, depth, acc.push((key, v)))
                            } else if s < b.len() && b[s] == 0x7D {
                                Ok((JsonValue::Object(acc.push((key, v))), s + 1))
                            } else {
                                Err(ParseError::Syntax)
                            }
                        },
                    }
                }
            },
        }
    }
}

/// The whole document as written: one value, with only whitespace around it.
pub open spec fn document_written(b: Seq<u8>) -> Result<JsonValue, ParseError> {
    match written_at(b, skip_ws_from(b, 0), 0) {
        Err(x) => Err(x),
        Ok((v, e)) => if skip_ws_from(b, e) != b.len() {
            Err(ParseError::TrailingContent)
        } else {
            Ok(v)
        },
    }
}

/// Adding an element commutes with taking sorted forms.
proof fn lemma_sorted_items_push(s: Seq<JsonValue>, x: JsonValue)
    ensures
        sorted_items(s.push(x)) == sorted_items(s).push(sorted_form(x)),
{
    assert(s.push(x).subrange(0, s.len() as int) =~= s);
}

/// Adding a member commutes with taking sorted forms of member values.
proof fn lemma_sorted_members_push(s: Seq<(Seq<u8>, JsonValue)>, m: (Seq<u8>, JsonValue))
    ensures
        sorted_members(s.push(m)) == sorted_members(s).push((m.0, sorted_form(m.1))),
{
    assert(s.push(m).subrange(0, s.len() as int) =~= s);
}

/// A value the parser reads is the sorted form of the value as written,
/// ending at the same place.
pub proof fn lemma_value_sorts_written(b: Seq<u8>, p: int, depth: int)
    ensures
        value_at(b, p, depth) matches Ok((v, e)) ==> (written_at(b, p, depth) matches Ok((w, e2))
            && e2 == e && sorted_form(w) == v),
    decreases b.len() - p, 1int,
{
    if depth <= MAX_DEPTH && 0 <= p < b.len() {
        let c = b[p];
        if c == 0x5B {
            lemma_array_sorts_written(b, p, depth);
        } else if c == 0x7B {
            lemma_object_sorts_written(b, p, depth);
        }
    }
}

proof fn lemma_array_sorts_written(b: Seq<u8>, p: int, depth: int)
    ensures
        array_at(b, p, depth) matches Ok((v, e)) ==> (written_array_at(b, p, depth) matches Ok((w, e2))
            && e2 == e && sorted_form(w) == v),
    decreases b.len() - p, 0int,
{
    if 0 <= p < b.len() && b[p] == 0x5B {
        let q = skip_ws_from(b, p + 1);
        lemma_skip_ws_from(b, p + 1);
        if q < b.len() && b[q] == 0x5D {
            assert(sorted_items(Seq::<JsonValue>::empty()) == Seq::<JsonValue>::empty());
        } else {
            assert(sorted_items(Seq::<JsonValue>::empty()) == Seq::<JsonValue>::empty());
            lemma_items_sorts_written(b, q, depth, Seq::empty());
        }
    }
}

proof fn lemma_items_sorts_written(b: Seq<u8>, q: int, depth: int, wacc: Seq<JsonValue>)
    ensures
        items_from(b, q, depth, sorted_items(wacc)) matches Ok((v, e)) ==> (written_items_from(
            b,
            q,
            depth,
            wacc,
        ) matches Ok((w, e2)) && e2 == e && sorted_form(w) == v),
    decreases b.len() - q, 2int,
{
    if 0 <= q <= b.len() {
        let r = skip_ws_from(b, q);
        lemma_skip_ws_from(b, q);
        lemma_value_sorts_written(b, r, depth + 1);
        if let Ok((v, e)) = value_at(b, r, depth + 1) {
            let s = skip_ws_from(b, e);
            lemma_skip_ws_from(b, e);
            if let Ok((w, e2)) = written_at(b, r, depth + 1) {
                lemma_sorted_items_push(wacc, w);
                if e > r && s < b.len() && b[s] == 0x2C {
                    lemma_items_sorts_written(b, s + 1, depth, wacc.push(w));
                }
            }
        }
    }
}

proof fn lemma_object_sorts_written(b: Seq<u8>, p: int, depth: int)
    ensures
        object_at(b, p, depth) matches Ok((v, e)) ==> (written_object_at(b, p, depth) matches Ok((w, e2))
            && e2 == e && sorted_form(w) == v),
    decreases b.len() - p, 0int,
{
    if 0 <= p < b.len() && b[p] == 0x7B {
        let q = skip_ws_from(b, p + 1);
        lemma_skip_ws_from(b, p + 1);
        let empty = Seq::<(Seq<u8>, JsonValue)>::empty();
        assert(sorted_members(empty) == empty);
        assert(insert_all(empty) == empty);
        if !(q < b.len() && b[q] == 0x7D) {
            lemma_members_sorts_written(b, q, depth, empty);
        }
    }
}

proof fn lemma_members_sorts_written(
    b: Seq<u8>,
    q: int,
    depth: int,
    wacc: Seq<(Seq<u8>, JsonValue)>,
)
    ensures
        members_from(b, q, depth, insert_all(sorted_members(wacc))) matches Ok((v, e)) ==> (
        written_members_from(b, q, depth, wacc) matches Ok((w, e2)) && e2 == e && sorted_form(w)
            == v),
    decreases b.len() - q, 2int,
{
    if 0 <= q <= b.len() {
        let r = skip_ws_from(b, q);
        lemma_skip_ws_from(b, q);
        lemma_string_at(b, r);
        if let Ok((key, k)) = string_at(b, r) {
            let c = skip_ws_from(b, k);
            lemma_skip_ws_from(b, k);
            if c < b.len() && b[c] == 0x3A {
                let vs = skip_ws_from(b, c + 1);
                lemma_skip_ws_from(b, c + 1);
                lemma_value_sorts_written(b, vs, depth + 1);
                if let Ok((v, e)) = value_at(b, vs, depth + 1) {
                    let s = skip_ws_from(b, e);
                    lemma_skip_ws_from(b, e);
                    if let Ok((w, e2)) = written_at(b, vs, depth + 1) {
                        let acc = insert_all(sorted_members(wacc));
                        let wacc2 = wacc.push((key, w));
                        lemma_sorted_members_push(wacc, (key, w));
                        let sm = sorted_members(wacc);
                        assert(sorted_members(wacc2) == sm.push((key, v)));
                        assert(sm.push((key, v)).drop_last() =~= sm);
                        assert(insert_all(sorted_members(wacc2)) == insert_member(acc, (key, v)));
                        assert(insert_member(acc, (key, v)) == acc.insert(insert_position(acc, key, 0), (key, v)));
                        if e > vs && s < b.len() && b[s] == 0x2C {
                            lemma_members_sorts_written(b, s + 1, depth, wacc2);
                        }
                    }
                }
            }
        }
    }
}

/// Law: every document the parser accepts has the sorted form of its value
/// as written as its value: the members of each object are put in the
/// canonical order, whatever order they are written in, and whitespace
/// between tokens leaves no trace.
pub proof fn law_parse_sorts_written(b: Seq<u8>)
    ensures
        parse_json(b) matches Ok(v) ==> (document_written(b) matches Ok(w) && sorted_form(w) == v),
{
    lemma_value_sorts_written(b, skip_ws_from(b, 0), 0);
}

} // verus!
