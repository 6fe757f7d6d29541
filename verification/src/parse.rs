//! Strict JSON parser for the restricted HAPS value domain.
//!
//! Duplicate member names, fractional and exponent numbers and integers
//! outside the admissible range are rejected before a value is returned.
//! Objects are built in canonical member order.
use vstd::prelude::*;
use vstd::utf8::{valid_utf8, encode_scalar, is_scalar, encode_utf8};
use crate::value::{Value, JsonValue, MAX_SAFE_INT, model_items, model_members, lemma_model_members, lemma_model_members_insert, lemma_model_items_push};
use crate::order::cmp_canonical;
use core::cmp::Ordering;
use crate::order::{key_less, key_equal};
use crate::utf16::lead_width;
use crate::domain::names_ascending;
use crate::canon::quoted;
use crate::roundtrip::lemma_string_roundtrip;
use crate::members::{object_written, distinct_names, insert_all, law_object_holds_members_as_written};

verus! {

/// Why a document was rejected.
#[derive(Clone, Copy, Debug, PartialEq, Eq, Structural)]
pub enum ParseError {
    /// A number had a fractional part or an exponent.
    NonIntegerNumber,
    /// An integer outside `-MAX_SAFE_INT ..= MAX_SAFE_INT`.
    IntegerOutOfRange,
    /// The same member name appeared twice in one object.
    DuplicateKey,
    /// Structurally invalid JSON.
    Syntax,
    /// A complete JSON value followed by more content.
    TrailingContent,
    /// Nesting deeper than [`MAX_DEPTH`].
    DepthExceeded,
}

/// Deepest nesting accepted by the parser; the top-level value is at depth 0.
pub const MAX_DEPTH: u32 = 64;

/// JSON insignificant whitespace: space, tab, line feed, carriage return.
pub open spec fn is_ws(c: u8) -> bool {
    c == 0x20 || c == 0x09 || c == 0x0A || c == 0x0D
}

/// An ASCII decimal digit.
pub open spec fn is_digit(c: u8) -> bool {
    0x30 <= c <= 0x39
}

/// An ASCII hexadecimal digit, either case.
pub open spec fn is_hex(c: u8) -> bool {
    is_digit(c) || (0x61 <= c <= 0x66) || (0x41 <= c <= 0x46)
}

/// The value of a hexadecimal digit.
pub open spec fn hex_value(c: u8) -> int {
    if is_digit(c) {
        c - 0x30
    } else if 0x61 <= c <= 0x66 {
        c - 0x61 + 10
    } else {
        c - 0x41 + 10
    }
}

/// Law: the hexadecimal digits of a `\u` escape are `0`-`9`, `a`-`f` and
/// `A`-`F`, worth 0 to 15, and an uppercase letter is worth what the same
/// lowercase letter is.
pub proof fn law_hex_digit_values(c: u8)
    ensures
        is_hex(c) <==> (0x30 <= c <= 0x39 || 0x41 <= c <= 0x46 || 0x61 <= c <= 0x66),
        0x30 <= c <= 0x39 ==> hex_value(c) == c - 0x30,
        0x61 <= c <= 0x66 ==> hex_value(c) == c - 0x61 + 10,
        0x61 <= c <= 0x66 ==> hex_value((c - 0x20) as u8) == hex_value(c),
        is_hex(c) ==> 0 <= hex_value(c) < 16,
{
}

/// The first position at or after `p` that does not hold whitespace.
pub open spec fn skip_ws_from(b: Seq<u8>, p: int) -> int
    decreases b.len() - p,
{
    if 0 <= p < b.len() && is_ws(b[p]) {
        skip_ws_from(b, p + 1)
    } else {
        p
    }
}

/// The first position at or after `p` that does not hold a digit.
pub open spec fn digits_end(b: Seq<u8>, p: int) -> int
    decreases b.len() - p,
{
    if 0 <= p < b.len() && is_digit(b[p]) {
        digits_end(b, p + 1)
    } else {
        p
    }
}

/// Digit scanning stays within the input and never moves backwards.
pub proof fn lemma_digits_end(b: Seq<u8>, p: int)
    ensures
        p <= digits_end(b, p),
        0 <= p <= b.len() ==> digits_end(b, p) <= b.len(),
        0 <= p ==> forall|i: int| p <= i < digits_end(b, p) ==> is_digit(#[trigger] b[i]),
        0 <= p && digits_end(b, p) < b.len() ==> !is_digit(b[digits_end(b, p)]),
    decreases b.len() - p,
{
    if 0 <= p < b.len() && is_digit(b[p]) {
        lemma_digits_end(b, p + 1);
    }
}

/// The number written by a sequence of decimal digits.
pub open spec fn digits_value(s: Seq<u8>) -> int
    decreases s.len(),
{
    if s.len() == 0 {
        0
    } else {
        digits_value(s.drop_last()) * 10 + (s.last() - 0x30)
    }
}

/// The bytes of `w` occur at position `p` of `b`.
pub open spec fn matches_at(b: Seq<u8>, p: int, w: Seq<u8>) -> bool {
    0 <= p && p + w.len() <= b.len() && b.subrange(p, p + w.len()) == w
}

/// Four hexadecimal digits at `p`, and their value.
pub open spec fn hex4_at(b: Seq<u8>, p: int) -> Option<int> {
    if 0 <= p && p + 4 <= b.len() && is_hex(b[p]) && is_hex(b[p + 1]) && is_hex(b[p + 2])
        && is_hex(b[p + 3]) {
        Some(
            hex_value(b[p]) * 4096 + hex_value(b[p + 1]) * 256 + hex_value(b[p + 2]) * 16
                + hex_value(b[p + 3]),
        )
    } else {
        None
    }
}

/// The scalar written by a `\u` escape whose four digits start at `p`, and
/// the position after it. A high surrogate must be followed by an escaped
/// low surrogate; a lone low surrogate is rejected.
pub open spec fn unicode_escape_at(b: Seq<u8>, p: int) -> Result<(u32, int), ParseError> {
    match hex4_at(b, p) {
        None => Err(ParseError::Syntax),
        Some(hi) => if 0xD800 <= hi < 0xDC00 {
            if !(p + 4 < b.len() && b[p + 4] == 0x5C) {
                Err(ParseError::Syntax)
            } else if !(p + 5 < b.len() && b[p + 5] == 0x75) {
                Err(ParseError::Syntax)
            } else {
                match hex4_at(b, p + 6) {
                    None => Err(ParseError::Syntax),
                    Some(lo) => if 0xDC00 <= lo < 0xE000 {
                        Ok(((0x10000 + (hi - 0xD800) * 1024 + (lo - 0xDC00)) as u32, p + 10))
                    } else {
                        Err(ParseError::Syntax)
                    },
                }
            }
        } else if 0xDC00 <= hi < 0xE000 {
            Err(ParseError::Syntax)
        } else {
            Ok((hi as u32, p + 4))
        },
    }
}

/// Law: writing one hex letter of a `\u` escape in uppercase in place of
/// lowercase changes neither what the escape stands for nor where it ends.
pub proof fn law_unicode_escape_case(b: Seq<u8>, q: int, i: int)
    requires
        q + 2 <= i < q + 6,
        0 <= q,
        i < b.len(),
        0x61 <= b[i] <= 0x66,
    ensures
        escape_at(b.update(i, (b[i] - 0x20) as u8), q) == escape_at(b, q),
{
    let c = b[i];
    let u = (c - 0x20) as u8;
    let b2 = b.update(i, u);
    law_hex_digit_values(c);
    assert(is_hex(u) && hex_value(u) == hex_value(c));
    assert forall|k: int| 0 <= k < b.len() && k != i implies b2[k] == b[k] by {}
    assert(hex4_at(b2, q + 2) == hex4_at(b, q + 2));
    assert(hex4_at(b2, q + 8) == hex4_at(b, q + 8));
}

/// The byte that a one-character escape stands for, if `e` names one.
pub open spec fn short_escape(e: u8) -> Option<u8> {
    if e == 0x22 || e == 0x5C || e == 0x2F {
        Some(e)
    } else if e == 0x62 {
        Some(0x08u8)
    } else if e == 0x66 {
        Some(0x0Cu8)
    } else if e == 0x6E {
        Some(0x0Au8)
    } else if e == 0x72 {
        Some(0x0Du8)
    } else if e == 0x74 {
        Some(0x09u8)
    } else {
        None
    }
}

/// An escape sequence whose backslash is at `q`: the bytes it stands for
/// and the position after it.
pub open spec fn escape_at(b: Seq<u8>, q: int) -> Result<(Seq<u8>, int), ParseError> {
    if q + 1 >= b.len() {
        Err(ParseError::Syntax)
    } else if b[q + 1] == 0x75 {
        match unicode_escape_at(b, q + 2) {
            Err(e) => Err(e),
            Ok((cp, next)) => Ok((encode_scalar(cp), next)),
        }
    } else {
        match short_escape(b[q + 1]) {
            Some(x) => Ok((seq![x], q + 2)),
            None => Err(ParseError::Syntax),
        }
    }
}

/// The rest of a string literal from position `q`, after the content `acc`
/// already read: its full content and the position after the closing quote.
pub open spec fn string_body(b: Seq<u8>, q: int, acc: Seq<u8>) -> Result<(Seq<u8>, int), ParseError>
    decreases b.len() - q,
{
    if q < 0 || q >= b.len() {
        Err(ParseError::Syntax)
    } else {
        let c = b[q];
        if c == 0x22 {
            Ok((acc, q + 1))
        } else if c == 0x5C {
            match escape_at(b, q) {
                Err(e) => Err(e),
                Ok((x, next)) => if q < next <= b.len() {
                    string_body(b, next, acc + x)
                } else {
                    Err(ParseError::Syntax)
                },
            }
        } else if c < 0x20 {
            Err(ParseError::Syntax)
        } else if c < 0x80 {
            string_body(b, q + 1, acc.push(c))
        } else if c < 0xC0 {
            Err(ParseError::Syntax)
        } else {
            let w = lead_width(c);
            if q + w > b.len() {
                Err(ParseError::Syntax)
            } else if !valid_utf8(b.subrange(q, q + w)) {
                Err(ParseError::Syntax)
            } else {
                string_body(b, q + w, acc + b.subrange(q, q + w))
            }
        }
    }
}

/// A string literal at `p`: its unescaped content and the position after it.
pub open spec fn string_at(b: Seq<u8>, p: int) -> Result<(Seq<u8>, int), ParseError> {
    if 0 <= p < b.len() && b[p] == 0x22 {
        string_body(b, p + 1, Seq::empty())
    } else {
        Err(ParseError::Syntax)
    }
}

/// An integer at `p`: an optional minus sign, then `0` or a digit string
/// without a leading zero. A fraction or exponent is rejected as
/// non-integer; negative zero is zero.
pub open spec fn number_at(b: Seq<u8>, p: int) -> Result<(JsonValue, int), ParseError> {
    let q = if 0 <= p < b.len() && b[p] == 0x2D {
        p + 1
    } else {
        p
    };
    if !(0 <= q < b.len() && is_digit(b[q])) {
        Err(ParseError::Syntax)
    } else {
        let e = if b[q] == 0x30 {
            q + 1
        } else {
            digits_end(b, q)
        };
        if b[q] == 0x30 && e < b.len() && is_digit(b[e]) {
            Err(ParseError::Syntax)
        } else if e < b.len() && (b[e] == 0x2E || b[e] == 0x65 || b[e] == 0x45) {
            Err(ParseError::NonIntegerNumber)
        } else {
            let m = digits_value(b.subrange(q, e));
            if m > MAX_SAFE_INT {
                Err(ParseError::IntegerOutOfRange)
            } else {
                Ok(
                    (
                        JsonValue::Int(
                            if q > p {
                                -m
                            } else {
                                m
                            },
                        ),
                        e,
                    ),
                )
            }
        }
    }
}

/// Some member of `acc` has a name equal to `key` in the canonical order.
pub open spec fn has_key(acc: Seq<(Seq<u8>, JsonValue)>, key: Seq<u8>) -> bool {
    exists|i: int| 0 <= i < acc.len() && key_equal(key, #[trigger] acc[i].0)
}

/// The first position from `j` whose member name orders after `key`, or the
/// length of `acc` if there is none.
pub open spec fn insert_position(acc: Seq<(Seq<u8>, JsonValue)>, key: Seq<u8>, j: int) -> int
    decreases acc.len() - j,
{
    if j < 0 || j >= acc.len() {
        acc.len() as int
    } else if key_less(key, acc[j].0) {
        j
    } else {
        insert_position(acc, key, j + 1)
    }
}

/// A value at `p`, nested `depth` levels deep, and the position after it.
pub open spec fn value_at(b: Seq<u8>, p: int, depth: int) -> Result<(JsonValue, int), ParseError>
    decreases b.len() - p, 1int,
{
    if depth > MAX_DEPTH {
        Err(ParseError::DepthExceeded)
    } else if p < 0 || p >= b.len() {
        Err(ParseError::Syntax)
    } else {
        let c = b[p];
        if c == 0x6E {
            if matches_at(b, p, seq![0x6Eu8, 0x75, 0x6C, 0x6C]) {
                Ok((JsonValue::Null, p + 4))
            } else {
                Err(ParseError::Syntax)
            }
        } else if c == 0x74 {
            if matches_at(b, p, seq![0x74u8, 0x72, 0x75, 0x65]) {
                Ok((JsonValue::Bool(true), p + 4))
            } else {
                Err(ParseError::Syntax)
            }
        } else if c == 0x66 {
            if matches_at(b, p, seq![0x66u8, 0x61, 0x6C, 0x73, 0x65]) {
                Ok((JsonValue::Bool(false), p + 5))
            } else {
                Err(ParseError::Syntax)
            }
        } else if c == 0x22 {
            match string_at(b, p) {
                Ok((s, e)) => Ok((JsonValue::Str(s), e)),
                Err(x) => Err(x),
            }
        } else if c == 0x5B {
            array_at(b, p, depth)
        } else if c == 0x7B {
            object_at(b, p, depth)
        } else if c == 0x2D || is_digit(c) {
            number_at(b, p)
        } else {
            Err(ParseError::Syntax)
        }
    }
}

/// An array at `p`, nested `depth` levels deep, and the position after it.
pub open spec fn array_at(b: Seq<u8>, p: int, depth: int) -> Result<(JsonValue, int), ParseError>
    decreases b.len() - p, 0int,
{
    if !(0 <= p < b.len() && b[p] == 0x5B) {
        Err(ParseError::Syntax)
    } else {
        let q = skip_ws_from(b, p + 1);
        proof {
            lemma_skip_ws_from(b, p + 1);
        }
        if q < b.len() && b[q] == 0x5D {
            Ok((JsonValue::Array(Seq::empty()), q + 1))
        } else {
            items_from(b, q, depth, Seq::empty())
        }
    }
}

/// The rest of an array from position `q`, after the elements `acc`.
pub open spec fn items_from(b: Seq<u8>, q: int, depth: int, acc: Seq<JsonValue>) -> Result<
    (JsonValue, int),
    ParseError,
>
    decreases b.len() - q, 2int,
{
    if q < 0 || q > b.len() {
        Err(ParseError::Syntax)
    } else {
        let r = skip_ws_from(b, q);
        proof {
            lemma_skip_ws_from(b, q);
        }
        match value_at(b, r, depth + 1) {
            Err(x) => Err(x),
            Ok((v, e)) => {
                let s = skip_ws_from(b, e);
                proof {
                    lemma_skip_ws_from(b, e);
                }
                if e <= r {
                    Err(ParseError::Syntax)
                } else if s < b.len() && b[s] == 0x2C {
                    items_from(b, s + 1, depth, acc.push(v))
                } else if s < b.len() && b[s] == 0x5D {
                    Ok((JsonValue::Array(acc.push(v)), s + 1))
                } else {
                    Err(ParseError::Syntax)
                }
            },
        }
    }
}

/// An object at `p`, nested `depth` levels deep, and the position after it.
pub open spec fn object_at(b: Seq<u8>, p: int, depth: int) -> Result<(JsonValue, int), ParseError>
    decreases b.len() - p, 0int,
{
    if !(0 <= p < b.len() && b[p] == 0x7B) {
        Err(ParseError::Syntax)
    } else {
        let q = skip_ws_from(b, p + 1);
        proof {
            lemma_skip_ws_from(b, p + 1);
        }
        if q < b.len() && b[q] == 0x7D {
            Ok((JsonValue::Object(Seq::empty()), q + 1))
        } else {
            members_from(b, q, depth, Seq::empty())
        }
    }
}

/// The rest of an object from position `q`, after the members `acc`, which
/// are kept in canonical order: each new member is inserted before the
/// first member whose name orders after its own.
pub open spec fn members_from(
    b: Seq<u8>,
    q: int,
    depth: int,
    acc: Seq<(Seq<u8>, JsonValue)>,
) -> Result<(JsonValue, int), ParseError>
    decreases b.len() - q, 2int,
{
    if q < 0 || q > b.len() {
        Err(ParseError::Syntax)
    } else {
        let r = skip_ws_from(b, q);
        proof {
            lemma_skip_ws_from(b, q);
        }
        match string_at(b, r) {
            Err(x) => Err(x),
            Ok((key, k)) => {
                let c = skip_ws_from(b, k);
                proof {
                    lemma_string_at(b, r);
                    lemma_skip_ws_from(b, k);
                }
                if !(c < b.len() && b[c] == 0x3A) {
                    Err(ParseError::Syntax)
                } else {
                    let vs = skip_ws_from(b, c + 1);
                    proof {
                        lemma_skip_ws_from(b, c + 1);
                    }
                    match value_at(b, vs, depth + 1) {
                        Err(x) => Err(x),
                        Ok((v, e)) => {
                            let s = skip_ws_from(b, e);
                            proof {
                                lemma_skip_ws_from(b, e);
                            }
                            if has_key(acc, key) {
                                Err(ParseError::DuplicateKey)
                            } else {
                                let at = insert_position(acc, key, 0);
                                let acc2 = acc.insert(at, (key, v));
                                if e <= vs {
                                    Err(ParseError::Syntax)
                                } else if s < b.len() && b[s] == 0x2C {
                                    members_from(b, s + 1, depth, acc2)
                                } else if s < b.len() && b[s] == 0x7D {
                                    Ok((JsonValue::Object(acc2), s + 1))
                                } else {
                                    Err(ParseError::Syntax)
                                }
                            }
                        },
                    }
                }
            },
        }
    }
}

/// The result of parsing a whole document: one value, with only whitespace
/// around it.
pub open spec fn parse_json(b: Seq<u8>) -> Result<JsonValue, ParseError> {
    match value_at(b, skip_ws_from(b, 0), 0) {
        Err(x) => Err(x),
        Ok((v, e)) => if skip_ws_from(b, e) != b.len() {
            Err(ParseError::TrailingContent)
        } else {
            Ok(v)
        },
    }
}

/// Whitespace skipping stays within the input and never moves backwards.
pub proof fn lemma_skip_ws_from(b: Seq<u8>, p: int)
    ensures
        p <= skip_ws_from(b, p),
        0 <= p <= b.len() ==> skip_ws_from(b, p) <= b.len(),
        0 <= p ==> forall|i: int| p <= i < skip_ws_from(b, p) ==> is_ws(#[trigger] b[i]),
        0 <= p && skip_ws_from(b, p) < b.len() ==> !is_ws(b[skip_ws_from(b, p)]),
    decreases b.len() - p,
{
    if 0 <= p < b.len() && is_ws(b[p]) {
        lemma_skip_ws_from(b, p + 1);
    }
}

/// The rest of a string literal, when read, ends after its start and within
/// the input.
pub proof fn lemma_string_body(b: Seq<u8>, q: int, acc: Seq<u8>)
    ensures
        string_body(b, q, acc) matches Ok((s, e)) ==> q < e <= b.len(),
    decreases b.len() - q,
{
    if 0 <= q < b.len() {
        let c = b[q];
        if c == 0x5C {
            match escape_at(b, q) {
                Ok((x, next)) => if q < next <= b.len() {
                    lemma_string_body(b, next, acc + x);
                },
                Err(_) => {},
            }
        } else if c != 0x22 && c >= 0x20 && c < 0x80 {
            lemma_string_body(b, q + 1, acc.push(c));
        } else if c >= 0xC0 && q + lead_width(c) <= b.len() {
            lemma_string_body(b, q + lead_width(c), acc + b.subrange(q, q + lead_width(c)));
        }
    }
}

/// A string literal, when read, ends after its start and within the input.
pub proof fn lemma_string_at(b: Seq<u8>, p: int)
    ensures
        string_at(b, p) matches Ok((s, e)) ==> p < e <= b.len(),
{
    if 0 <= p < b.len() && b[p] == 0x22 {
        lemma_string_body(b, p + 1, Seq::empty());
    }
}

/// An executable parse result agrees with a specified one: the same value
/// and end position, or the same error.
pub open spec fn agrees(res: Result<Value, ParseError>, r: Result<(JsonValue, int), ParseError>, pos: int) -> bool {
    match r {
        Ok((v, e)) => match res {
            Ok(x) => x@ == v && pos == e,
            Err(_) => false,
        },
        Err(x) => res == Err::<Value, ParseError>(x),
    }
}

/// Parse a JSON document of the restricted HAPS domain.
pub fn parse(input: &str) -> (res: Result<Value, ParseError>)
    ensures
        match parse_json(encode_utf8(input@)) {
            Ok(v) => res matches Ok(x) && x@ == v,
            Err(e) => res == Err::<Value, ParseError>(e),
        },
{
    let mut p = Parser { bytes: input.as_bytes(), pos: 0 };
    let ghost b = p.bytes@;
    assert(b == encode_utf8(input@));
    p.skip_ws();
    proof {
        lemma_skip_ws_from(b, 0);
    }
    let value = p.parse_value(0)?;
    p.skip_ws();
    if p.pos != p.bytes.len() {
        return Err(ParseError::TrailingContent);
    }
    Ok(value)
}

/// The optional sign and the digits of an integer literal.
pub open spec fn integer_text(t: Seq<u8>) -> bool {
    let st: int = if t.len() > 0 && t[0] == 0x2D { 1 } else { 0 };
    st < t.len() && forall|i: int| st <= i < t.len() ==> is_digit(#[trigger] t[i])
}

/// The value of a digit string is not negative.
pub proof fn lemma_digits_value_nonneg(s: Seq<u8>)
    requires
        forall|i: int| 0 <= i < s.len() ==> is_digit(#[trigger] s[i]),
    ensures
        digits_value(s) >= 0,
    decreases s.len(),
{
    if s.len() > 0 {
        lemma_digits_value_nonneg(s.drop_last());
    }
}

proof fn lemma_digits_value_prefix(s: Seq<u8>, k: int)
    requires
        0 <= k <= s.len(),
        forall|i: int| 0 <= i < s.len() ==> is_digit(#[trigger] s[i]),
    ensures
        0 <= digits_value(s.take(k)) <= digits_value(s),
    decreases s.len(),
{
    if k < s.len() {
        assert(s.drop_last().take(k) =~= s.take(k));
        lemma_digits_value_prefix(s.drop_last(), k);
    } else {
        assert(s.take(k) =~= s);
        if s.len() > 0 {
            lemma_digits_value_prefix(s.drop_last(), k - 1);
            assert(s.drop_last().take(k - 1) =~= s.drop_last());
        }
    }
}

/// Reading the digits of `ds` from position `i` on, with `acc` the value of
/// those before: a byte that is not a digit is a syntax error, and a value
/// that would pass [`MAX_SAFE_INT`] is out of range, whichever comes first.
pub open spec fn digits_scan(ds: Seq<u8>, i: int, acc: int) -> Result<int, ParseError>
    decreases ds.len() - i,
{
    if i < 0 || i >= ds.len() {
        Ok(acc)
    } else if !is_digit(ds[i]) {
        Err(ParseError::Syntax)
    } else if acc * 10 + (ds[i] - 0x30) > MAX_SAFE_INT {
        Err(ParseError::IntegerOutOfRange)
    } else {
        digits_scan(ds, i + 1, acc * 10 + (ds[i] - 0x30))
    }
}

/// The integer an optional `-` and decimal digits stand for; text with no
/// digits is a syntax error.
pub open spec fn int_text_value(t: Seq<u8>) -> Result<int, ParseError> {
    let neg = t.len() > 0 && t[0] == 0x2D;
    let ds = if neg { t.skip(1) } else { t };
    if ds.len() == 0 {
        Err(ParseError::Syntax)
    } else {
        match digits_scan(ds, 0, 0) {
            Ok(m) => Ok(if neg { -m } else { m }),
            Err(e) => Err(e),
        }
    }
}

/// A decimal integer from its ASCII text. Overflow of the admissible range is
/// caught before each multiplication.
fn parse_int(text: &[u8]) -> (res: Result<i64, ParseError>)
    ensures
        match int_text_value(text@) {
            Ok(n) => -MAX_SAFE_INT <= n <= MAX_SAFE_INT && res == Ok::<i64, ParseError>(n as i64),
            Err(e) => res == Err::<i64, ParseError>(e),
        },
        integer_text(text@) ==> ({
            let neg = text@[0] == 0x2D;
            let m = digits_value(if neg { text@.skip(1) } else { text@ });
            if m > MAX_SAFE_INT {
                res == Err::<i64, ParseError>(ParseError::IntegerOutOfRange)
            } else {
                res == Ok::<i64, ParseError>((if neg { -m } else { m }) as i64)
            }
        }),
{
    let ghost t = text@;
    let mut i: usize = 0;
    let negative = !text.is_empty() && text[0] == 0x2D;
    if negative {
        i = 1;
    }
    let st = i;
    let ghost ds = t.subrange(st as int, t.len() as int);
    assert(ds == (if negative { t.skip(1) } else { t }));
    if i >= text.len() {
        return Err(ParseError::Syntax);
    }
    let mut acc: u64 = 0;
    while i < text.len()
        invariant
            t == text@,
            st <= i <= t.len(),
            st < t.len(),
            ds == t.subrange(st as int, t.len() as int),
            negative == (t.len() > 0 && t[0] == 0x2D),
            ds == (if negative { t.skip(1) } else { t }),
            forall|k: int| 0 <= k < i - st ==> is_digit(#[trigger] ds[k]),
            acc == digits_value(ds.take(i - st)),
            acc <= MAX_SAFE_INT,
            digits_scan(ds, 0, 0) == digits_scan(ds, i - st, acc as int),
        decreases t.len() - i,
    {
        let c = text[i];
        assert(ds[i - st] == c);
        if !(0x30 <= c && c <= 0x39) {
            return Err(ParseError::Syntax);
        }
        let d = (c - 0x30) as u64;
        assert(ds.take(i + 1 - st).drop_last() =~= ds.take(i - st));
        assert(ds.take(i + 1 - st).last() == c);
        assert(digits_value(ds.take(i + 1 - st)) == acc * 10 + d);
        // Bound the accumulator before the next multiply and add.
        if acc > (MAX_SAFE_INT as u64 - d) / 10 {
            proof {
                assert(acc * 10 + d > MAX_SAFE_INT) by (nonlinear_arith)
                    requires
                        acc > (MAX_SAFE_INT - d) / 10,
                        d <= 9,
                ;
                if integer_text(t) {
                    assert forall|k: int| 0 <= k < ds.len() implies is_digit(#[trigger] ds[k]) by {
                        assert(ds[k] == t[k + st]);
                    }
                    lemma_digits_value_prefix(ds, i + 1 - st);
                    assert(digits_value(ds) > MAX_SAFE_INT);
                }
            }
            return Err(ParseError::IntegerOutOfRange);
        }
        proof {
            assert(acc * 10 + d <= MAX_SAFE_INT) by (nonlinear_arith)
                requires
                    acc <= (MAX_SAFE_INT - d) / 10,
                    d <= 9,
            ;
        }
        acc = acc * 10 + d;
        i += 1;
    }
    assert(ds.take(i - st) =~= ds);
    Ok(if negative { -(acc as i64) } else { acc as i64 })
}

/// Some member of `members` has the name `key` in the canonical order.
fn has_equal_key(members: &Vec<(Vec<u8>, Value)>, key: &Vec<u8>) -> (r: bool)
    ensures
        r == has_key(model_members(members@), key@),
{
    proof {
        lemma_model_members(members@);
    }
    let mut i: usize = 0;
    let ghost mut gi: int = 0;
    while i < members.len()
        invariant
            i <= members@.len(),
            gi == i,
            model_members(members@).len() == members@.len(),
            forall|k: int|
                0 <= k < members@.len() ==> #[trigger] model_members(members@)[k] == (
                    members@[k].0@,
                    members@[k].1@,
                ),
            forall|k: int| 0 <= k < i ==> !key_equal(key@, #[trigger] members@[k].0@),
        decreases members.len() - i,
    {
        match cmp_canonical(key.as_slice(), members[i].0.as_slice()) {
            Ordering::Equal => {
                assert(key_equal(key@, model_members(members@)[gi].0));
                return true;
            },
            _ => {},
        }
        i += 1;
        proof {
            gi = gi + 1;
        }
    }
    assert forall|k: int| 0 <= k < members@.len() implies !key_equal(key@, #[trigger] model_members(members@)[k].0) by {
        assert(model_members(members@)[k].0 == members@[k].0@);
    }
    false
}

/// Where `key` goes among `members`: before the first member whose name
/// orders after it.
fn insertion_index(members: &Vec<(Vec<u8>, Value)>, key: &Vec<u8>) -> (at: usize)
    ensures
        at <= members@.len(),
        at == insert_position(model_members(members@), key@, 0),
{
    proof {
        lemma_model_members(members@);
    }
    let ghost ms = model_members(members@);
    let mut at = members.len();
    let mut j: usize = 0;
    let ghost mut gj: int = 0;
    while j < members.len()
        invariant_except_break
            at == members@.len(),
        invariant
            j <= members@.len(),
            gj == j,
            ms == model_members(members@),
            ms.len() == members@.len(),
            forall|k: int|
                0 <= k < members@.len() ==> #[trigger] ms[k] == (members@[k].0@, members@[k].1@),
            insert_position(ms, key@, 0) == insert_position(ms, key@, gj),
        ensures
            at <= members@.len(),
            at == insert_position(ms, key@, 0),
        decreases members.len() - j,
    {
        match cmp_canonical(key.as_slice(), members[j].0.as_slice()) {
            Ordering::Less => {
                at = j;
                break;
            },
            _ => {},
        }
        j += 1;
        proof {
            gj = gj + 1;
        }
    }
    at
}

/// Append the UTF-8 encoding of a Unicode scalar.
fn push_utf8(out: &mut Vec<u8>, cp: u32)
    requires
        is_scalar(cp),
    ensures
        final(out)@ == old(out)@ + encode_scalar(cp),
{
    if cp < 0x80 {
        proof {
            assert(cp < 0x80 ==> cp as u8 == (cp & 0x7F) as u8) by (bit_vector);
        }
        out.push(cp as u8);
    } else if cp < 0x800 {
        proof {
            assert(cp < 0x800 ==> 0xC0 | ((cp >> 6) as u8) == 0xC0 | ((cp >> 6) & 0x1F) as u8) by (bit_vector);
            assert(0x80 | ((cp & 0x3F) as u8) == 0x80 | (cp & 0x3F) as u8) by (bit_vector);
        }
        out.push(0xC0 | ((cp >> 6) as u8));
        out.push(0x80 | ((cp & 0x3F) as u8));
    } else if cp < 0x10000 {
        proof {
            assert(cp < 0x10000 ==> 0xE0 | ((cp >> 12) as u8) == 0xE0 | ((cp >> 12) & 0x0F) as u8) by (bit_vector);
            assert(0x80 | (((cp >> 6) & 0x3F) as u8) == 0x80 | ((cp >> 6) & 0x3F) as u8) by (bit_vector);
            assert(0x80 | ((cp & 0x3F) as u8) == 0x80 | (cp & 0x3F) as u8) by (bit_vector);
        }
        out.push(0xE0 | ((cp >> 12) as u8));
        out.push(0x80 | (((cp >> 6) & 0x3F) as u8));
        out.push(0x80 | ((cp & 0x3F) as u8));
    } else {
        proof {
            assert(cp <= 0x10FFFF ==> 0xF0 | ((cp >> 18) as u8) == 0xF0 | ((cp >> 18) & 0x7) as u8) by (bit_vector);
            assert(0x80 | (((cp >> 12) & 0x3F) as u8) == 0x80 | ((cp >> 12) & 0x3F) as u8) by (bit_vector);
            assert(0x80 | (((cp >> 6) & 0x3F) as u8) == 0x80 | ((cp >> 6) & 0x3F) as u8) by (bit_vector);
            assert(0x80 | ((cp & 0x3F) as u8) == 0x80 | (cp & 0x3F) as u8) by (bit_vector);
        }
        out.push(0xF0 | ((cp >> 18) as u8));
        out.push(0x80 | (((cp >> 12) & 0x3F) as u8));
        out.push(0x80 | (((cp >> 6) & 0x3F) as u8));
        out.push(0x80 | ((cp & 0x3F) as u8));
    }
}

/// Whether `bytes[start..start + len]`, which begins with a leading byte of
/// width `len`, is the valid UTF-8 encoding of one scalar.
fn utf8_sequence_ok(bytes: &[u8], start: usize, len: usize) -> (r: bool)
    requires
        start < bytes@.len(),
        bytes@[start as int] >= 0xC0,
        len == lead_width(bytes@[start as int]),
        start + len <= bytes@.len(),
    ensures
        r == valid_utf8(bytes@.subrange(start as int, start + len)),
{
    let ghost s = bytes@.subrange(start as int, start + len);
    let c0 = bytes[start];
    let c1 = bytes[start + 1];
    assert(s[0] == c0 && s[1] == c1);
    let ok = if len == 2 {
        let cp = (((c0 & 0x1F) as u32) << 6) | ((c1 & 0x3F) as u32);
        proof {
            assert((((c0 & 0x1F) as u32) << 6) | ((c1 & 0x3F) as u32) < 0x800) by (bit_vector);
        }
        0x80 <= c1 && c1 <= 0xBF && 0x80 <= cp
    } else if len == 3 {
        let c2 = bytes[start + 2];
        assert(s[2] == c2);
        let cp = (((c0 & 0x0F) as u32) << 12) | (((c1 & 0x3F) as u32) << 6) | ((c2 & 0x3F) as u32);
        0x80 <= c1 && c1 <= 0xBF && 0x80 <= c2 && c2 <= 0xBF && 0x800 <= cp && !(0xD800 <= cp
            && cp <= 0xDFFF)
    } else {
        let c2 = bytes[start + 2];
        let c3 = bytes[start + 3];
        assert(s[2] == c2 && s[3] == c3);
        let cp = (((c0 & 0x07) as u32) << 18) | (((c1 & 0x3F) as u32) << 12) | (((c2 & 0x3F) as u32) << 6)
            | ((c3 & 0x3F) as u32);
        c0 <= 0xF7 && 0x80 <= c1 && c1 <= 0xBF && 0x80 <= c2 && c2 <= 0xBF && 0x80 <= c3 && c3 <= 0xBF
            && 0x10000 <= cp && cp <= 0x10FFFF && !(0xD800 <= cp && cp <= 0xDFFF)
    };
    proof {
        if ok {
            assert(vstd::utf8::valid_first_scalar(s));
            assert(vstd::utf8::pop_first_scalar(s) =~= Seq::<u8>::empty());
            assert(valid_utf8(vstd::utf8::pop_first_scalar(s)));
            assert(valid_utf8(s));
        } else {
            assert(!vstd::utf8::valid_first_scalar(s));
        }
    }
    ok
}

struct Parser<'a> {
    bytes: &'a [u8],
    pos: usize,
}

impl<'a> Parser<'a> {
    fn peek(&self) -> (r: Option<u8>)
        ensures
            self.bytes@.len() <= usize::MAX,
            r == (if self.pos < self.bytes@.len() {
                Some(self.bytes@[self.pos as int])
            } else {
                None
            }),
    {
        if self.pos < self.bytes.len() {
            Some(self.bytes[self.pos])
        } else {
            None
        }
    }

    fn bump(&mut self) -> (r: Option<u8>)
        ensures
            final(self).bytes == old(self).bytes,
            old(self).pos < old(self).bytes@.len() ==> r == Some(old(self).bytes@[old(self).pos as int])
                && final(self).pos == old(self).pos + 1,
            old(self).pos >= old(self).bytes@.len() ==> r is None && final(self).pos == old(self).pos,
    {
        if self.pos < self.bytes.len() {
            let b = self.bytes[self.pos];
            self.pos += 1;
            Some(b)
        } else {
            None
        }
    }

    fn eat(&mut self, expected: u8) -> (r: Result<(), ParseError>)
        ensures
            final(self).bytes == old(self).bytes,
            if old(self).pos < old(self).bytes@.len() && old(self).bytes@[old(self).pos as int]
                == expected {
                r is Ok && final(self).pos == old(self).pos + 1
            } else {
                r == Err::<(), ParseError>(ParseError::Syntax) && final(self).pos == old(self).pos
            },
    {
        match self.peek() {
            Some(b) => {
                if b == expected {
                    self.pos += 1;
                    Ok(())
                } else {
                    Err(ParseError::Syntax)
                }
            },
            None => Err(ParseError::Syntax),
        }
    }

    fn skip_ws(&mut self)
        requires
            old(self).pos <= old(self).bytes@.len(),
        ensures
            final(self).bytes == old(self).bytes,
            final(self).pos == skip_ws_from(old(self).bytes@, old(self).pos as int),
    {
        loop
            invariant
                self.bytes == old(self).bytes,
                old(self).pos <= self.pos <= self.bytes@.len(),
                skip_ws_from(self.bytes@, self.pos as int) == skip_ws_from(
                    old(self).bytes@,
                    old(self).pos as int,
                ),
            ensures
                self.bytes == old(self).bytes,
                self.pos == skip_ws_from(old(self).bytes@, old(self).pos as int),
            decreases self.bytes@.len() - self.pos,
        {
            match self.peek() {
                Some(b) => {
                    if b == 0x20 || b == 0x09 || b == 0x0A || b == 0x0D {
                        self.pos += 1;
                    } else {
                        break;
                    }
                },
                None => break,
            }
        }
    }

    fn literal(&mut self, word: &[u8]) -> (r: Result<(), ParseError>)
        requires
            old(self).pos <= old(self).bytes@.len(),
        ensures
            final(self).bytes == old(self).bytes,
            final(self).pos <= final(self).bytes@.len(),
            if matches_at(old(self).bytes@, old(self).pos as int, word@) {
                r is Ok && final(self).pos == old(self).pos + word@.len()
            } else {
                r == Err::<(), ParseError>(ParseError::Syntax)
            },
    {
        if word.len() > self.bytes.len() - self.pos {
            return Err(ParseError::Syntax);
        }
        let end = self.pos + word.len();
        let mut k: usize = 0;
        while k < word.len()
            invariant
                self.pos + word@.len() <= self.bytes@.len(),
                end == self.pos + word@.len(),
                k <= word@.len(),
                self.bytes@.subrange(self.pos as int, self.pos + k) == word@.take(k as int),
            decreases word.len() - k,
        {
            if self.bytes[self.pos + k] != word[k] {
                assert(self.bytes@.subrange(self.pos as int, self.pos + word@.len())[k as int]
                    != word@[k as int]);
                return Err(ParseError::Syntax);
            }
            assert(self.bytes@.subrange(self.pos as int, self.pos + k + 1) =~= self.bytes@.subrange(
                self.pos as int,
                self.pos + k,
            ).push(word@[k as int]));
            assert(word@.take(k + 1) =~= word@.take(k as int).push(word@[k as int]));
            k += 1;
        }
        assert(word@.take(k as int) =~= word@);
        self.pos = end;
        Ok(())
    }

    fn parse_value(&mut self, depth: u32) -> (res: Result<Value, ParseError>)
        requires
            old(self).pos <= old(self).bytes@.len(),
        ensures
            final(self).bytes == old(self).bytes,
            final(self).pos <= final(self).bytes@.len(),
            res is Ok ==> old(self).pos < final(self).pos,
            depth > MAX_DEPTH ==> final(self).pos == old(self).pos,
            agrees(res, value_at(old(self).bytes@, old(self).pos as int, depth as int), final(self).pos as int),
        decreases old(self).bytes@.len() - old(self).pos, 1int,
    {
        if depth > MAX_DEPTH {
            return Err(ParseError::DepthExceeded);
        }
        match self.peek() {
            None => Err(ParseError::Syntax),
            Some(c) => {
                if c == 0x6E {
                    self.literal(&[0x6E, 0x75, 0x6C, 0x6C])?;
                    Ok(Value::Null)
                } else if c == 0x74 {
                    self.literal(&[0x74, 0x72, 0x75, 0x65])?;
                    Ok(Value::Bool(true))
                } else if c == 0x66 {
                    self.literal(&[0x66, 0x61, 0x6C, 0x73, 0x65])?;
                    Ok(Value::Bool(false))
                } else if c == 0x22 {
                    proof {
                        lemma_string_at(old(self).bytes@, old(self).pos as int);
                    }
                    Ok(Value::Str(self.parse_string()?))
                } else if c == 0x5B {
                    self.parse_array(depth)
                } else if c == 0x7B {
                    self.parse_object(depth)
                } else if c == 0x2D || (0x30 <= c && c <= 0x39) {
                    self.parse_number()
                } else {
                    Err(ParseError::Syntax)
                }
            },
        }
    }

    fn parse_array(&mut self, depth: u32) -> (res: Result<Value, ParseError>)
        requires
            old(self).pos <= old(self).bytes@.len(),
            depth <= MAX_DEPTH,
        ensures
            final(self).bytes == old(self).bytes,
            final(self).pos <= final(self).bytes@.len(),
            res is Ok ==> old(self).pos < final(self).pos,
            agrees(res, array_at(old(self).bytes@, old(self).pos as int, depth as int), final(self).pos as int),
        decreases old(self).bytes@.len() - old(self).pos, 0int,
    {
        let ghost b = self.bytes@;
        let ghost p0 = self.pos as int;
        self.eat(0x5B)?;
        let mut items: Vec<Value> = Vec::new();
        self.skip_ws();
        proof {
            lemma_skip_ws_from(b, p0 + 1);
        }
        match self.peek() {
            Some(c) => {
                if c == 0x5D {
                    self.pos += 1;
                    proof {
                        assert(model_items(items@) =~= Seq::<JsonValue>::empty());
                    }
                    return Ok(Value::Array(items));
                }
            },
            None => {},
        }
        assert(model_items(items@) =~= Seq::<JsonValue>::empty());
        loop
            invariant
                self.bytes@ == b,
                self.bytes == old(self).bytes,
                b == old(self).bytes@,
                p0 == old(self).pos,
                p0 < self.pos <= b.len(),
                depth <= MAX_DEPTH,
                array_at(b, p0, depth as int) == items_from(b, self.pos as int, depth as int, model_items(items@)),
            decreases b.len() - self.pos,
        {
            let ghost q = self.pos as int;
            self.skip_ws();
            proof {
                lemma_skip_ws_from(b, q);
            }
            let v = self.parse_value(depth.saturating_add(1))?;
            let ghost e = self.pos as int;
            let ghost before = items@;
            items.push(v);
            proof {
                lemma_model_items_push(before, v);
            }
            self.skip_ws();
            proof {
                lemma_skip_ws_from(b, e);
            }
            match self.bump() {
                Some(c) => {
                    if c == 0x2C {
                    } else if c == 0x5D {
                        return Ok(Value::Array(items));
                    } else {
                        return Err(ParseError::Syntax);
                    }
                },
                None => return Err(ParseError::Syntax),
            }
        }
    }

    fn parse_object(&mut self, depth: u32) -> (res: Result<Value, ParseError>)
        requires
            old(self).pos <= old(self).bytes@.len(),
            depth <= MAX_DEPTH,
        ensures
            final(self).bytes == old(self).bytes,
            final(self).pos <= final(self).bytes@.len(),
            res is Ok ==> old(self).pos < final(self).pos,
            agrees(res, object_at(old(self).bytes@, old(self).pos as int, depth as int), final(self).pos as int),
            res matches Ok(v) ==> (object_written(old(self).bytes@, old(self).pos as int, depth as int)
                matches Ok((w, e)) && e == final(self).pos && distinct_names(w)
                && v@ == JsonValue::Object(insert_all(w)) && names_ascending(insert_all(w))),
        decreases old(self).bytes@.len() - old(self).pos, 0int,
    {
        let ghost b = self.bytes@;
        let ghost p0 = self.pos as int;
        self.eat(0x7B)?;
        let mut members: Vec<(Vec<u8>, Value)> = Vec::new();
        self.skip_ws();
        proof {
            lemma_skip_ws_from(b, p0 + 1);
        }
        match self.peek() {
            Some(c) => {
                if c == 0x7D {
                    self.pos += 1;
                    proof {
                        assert(model_members(members@) =~= Seq::<(Seq<u8>, JsonValue)>::empty());
                        law_object_holds_members_as_written(b, p0, depth as int);
                    }
                    return Ok(Value::Object(members));
                }
            },
            None => {},
        }
        assert(model_members(members@) =~= Seq::<(Seq<u8>, JsonValue)>::empty());
        let mut finished = false;
        while !finished
            invariant
                self.bytes@ == b,
                self.bytes == old(self).bytes,
                b == old(self).bytes@,
                p0 == old(self).pos,
                p0 < self.pos <= b.len(),
                depth <= MAX_DEPTH,
                !finished ==> object_at(b, p0, depth as int) == members_from(
                    b,
                    self.pos as int,
                    depth as int,
                    model_members(members@),
                ),
                finished ==> object_at(b, p0, depth as int) == Ok::<(JsonValue, int), ParseError>(
                    (JsonValue::Object(model_members(members@)), self.pos as int),
                ),
            decreases b.len() - self.pos,
        {
            let ghost q = self.pos as int;
            self.skip_ws();
            proof {
                lemma_skip_ws_from(b, q);
            }
            let ghost r = self.pos as int;
            let key = self.parse_string()?;
            let ghost k = self.pos as int;
            proof {
                lemma_string_at(b, r);
            }
            self.skip_ws();
            proof {
                lemma_skip_ws_from(b, k);
            }
            self.eat(0x3A)?;
            let ghost c1 = self.pos as int;
            self.skip_ws();
            proof {
                lemma_skip_ws_from(b, c1);
            }
            let value = self.parse_value(depth.saturating_add(1))?;
            let ghost e = self.pos as int;
            // Duplicate member names are rejected, not resolved last-wins.
            if has_equal_key(&members, &key) {
                return Err(ParseError::DuplicateKey);
            }
            // Insert in canonical order, so an object is sorted by construction.
            let at = insertion_index(&members, &key);
            let ghost before = members@;
            let ghost kv = (key, value);
            members.insert(at, (key, value));
            proof {
                lemma_model_members_insert(before, at as int, kv);
            }
            self.skip_ws();
            proof {
                lemma_skip_ws_from(b, e);
            }
            match self.bump() {
                Some(c) => {
                    if c == 0x2C {
                    } else if c == 0x7D {
                        finished = true;
                    } else {
                        return Err(ParseError::Syntax);
                    }
                },
                None => return Err(ParseError::Syntax),
            }
        }
        proof {
            law_object_holds_members_as_written(b, p0, depth as int);
        }
        Ok(Value::Object(members))
    }

    fn parse_number(&mut self) -> (res: Result<Value, ParseError>)
        requires
            old(self).pos <= old(self).bytes@.len(),
        ensures
            final(self).bytes == old(self).bytes,
            final(self).pos <= final(self).bytes@.len(),
            res is Ok ==> old(self).pos < final(self).pos,
            agrees(res, number_at(old(self).bytes@, old(self).pos as int), final(self).pos as int),
    {
        let ghost b = self.bytes@;
        let start = self.pos;
        match self.peek() {
            Some(c) => {
                if c == 0x2D {
                    self.pos += 1;
                }
            },
            None => {},
        }
        let ghost q = self.pos as int;
        // The integer part: `0` alone, or a non-zero digit followed by digits.
        match self.peek() {
            Some(c) => {
                if c == 0x30 {
                    self.pos += 1;
                    match self.peek() {
                        Some(d) => {
                            if 0x30 <= d && d <= 0x39 {
                                // A leading zero.
                                return Err(ParseError::Syntax);
                            }
                        },
                        None => {},
                    }
                } else if 0x30 <= c && c <= 0x39 {
                    loop
                        invariant
                            self.bytes@ == b,
                            self.bytes == old(self).bytes,
                            q <= self.pos <= b.len(),
                            digits_end(b, q) == digits_end(b, self.pos as int),
                            forall|i: int| q <= i < self.pos ==> is_digit(#[trigger] b[i]),
                        ensures
                            self.bytes@ == b,
                            self.bytes == old(self).bytes,
                            q <= self.pos <= b.len(),
                            self.pos == digits_end(b, q),
                            forall|i: int| q <= i < self.pos ==> is_digit(#[trigger] b[i]),
                        decreases b.len() - self.pos,
                    {
                        match self.peek() {
                            Some(d) => {
                                if 0x30 <= d && d <= 0x39 {
                                    self.pos += 1;
                                } else {
                                    break;
                                }
                            },
                            None => break,
                        }
                    }
                } else {
                    return Err(ParseError::Syntax);
                }
            },
            None => return Err(ParseError::Syntax),
        }
        proof {
            lemma_digits_end(b, q);
            assert(0 <= q < b.len() && is_digit(b[q]));
            assert(self.pos == (if b[q] == 0x30 { q + 1 } else { digits_end(b, q) }));
            assert(forall|i: int| q <= i < self.pos ==> is_digit(#[trigger] b[i]));
            assert(q == (if 0 <= start < b.len() && b[start as int] == 0x2D { start + 1 } else { start as int }));
        }
        // A fractional part or an exponent is not admissible.
        match self.peek() {
            Some(c) => {
                if c == 0x2E || c == 0x65 || c == 0x45 {
                    return Err(ParseError::NonIntegerNumber);
                }
            },
            None => {},
        }
        if self.pos > self.bytes.len() || start > self.pos {
            return Err(ParseError::Syntax);
        }
        let ghost e = self.pos as int;
        let ghost t = b.subrange(start as int, e);
        assert(t =~= (if q > start { seq![0x2Du8] } else { Seq::empty() }) + b.subrange(q, e));
        assert(q > start ==> t.skip(1) =~= b.subrange(q, e));
        assert(q == start ==> t =~= b.subrange(q, e) && t[0] != 0x2D);
        assert(integer_text(t));
        proof {
            lemma_digits_value_prefix(b.subrange(q, e), 0);
        }
        let n = parse_int(&self.bytes[start..self.pos])?;
        if n < -MAX_SAFE_INT || n > MAX_SAFE_INT {
            return Err(ParseError::IntegerOutOfRange);
        }
        // With integers only, -0 and 0 are the same value.
        Ok(Value::Int(if n == 0 { 0 } else { n }))
    }

    fn hex4(&mut self) -> (r: Result<u16, ParseError>)
        requires
            old(self).pos <= old(self).bytes@.len(),
        ensures
            final(self).bytes == old(self).bytes,
            final(self).pos <= final(self).bytes@.len(),
            match hex4_at(old(self).bytes@, old(self).pos as int) {
                Some(h) => r == Ok::<u16, ParseError>(h as u16) && final(self).pos == old(self).pos + 4,
                None => r == Err::<u16, ParseError>(ParseError::Syntax),
            },
    {
        let ghost b = self.bytes@;
        let ghost p0 = self.pos as int;
        let mut v: u16 = 0;
        let mut i: usize = 0;
        while i < 4
            invariant
                self.bytes@ == b,
                self.bytes == old(self).bytes,
                b == old(self).bytes@,
                p0 == old(self).pos,
                i <= 4,
                self.pos == p0 + i,
                self.pos <= b.len(),
                forall|k: int| 0 <= k < i ==> is_hex(#[trigger] b[p0 + k]),
                v < (if i == 0 { 1int } else if i == 1 { 16 } else if i == 2 { 256 } else if i == 3 { 4096 } else { 65536 }),
                v == (if i == 0 {
                    0
                } else if i == 1 {
                    hex_value(b[p0])
                } else if i == 2 {
                    hex_value(b[p0]) * 16 + hex_value(b[p0 + 1])
                } else if i == 3 {
                    hex_value(b[p0]) * 256 + hex_value(b[p0 + 1]) * 16 + hex_value(b[p0 + 2])
                } else {
                    hex_value(b[p0]) * 4096 + hex_value(b[p0 + 1]) * 256 + hex_value(b[p0 + 2]) * 16
                        + hex_value(b[p0 + 3])
                }),
            decreases 4 - i,
        {
            let c = match self.bump() {
                Some(c) => c,
                None => {
                    proof {
                        assert(p0 + 4 > b.len());
                    }
                    return Err(ParseError::Syntax);
                },
            };
            let d: u8 = if c >= 0x30 && c <= 0x39 {
                c - 0x30
            } else if c >= 0x61 && c <= 0x66 {
                c - 0x61 + 10
            } else if c >= 0x41 && c <= 0x46 {
                c - 0x41 + 10
            } else {
                proof {
                    assert(!is_hex(b[p0 + i]));
                    if i == 0 {
                    } else if i == 1 {
                    } else if i == 2 {
                    } else {
                    }
                }
                return Err(ParseError::Syntax);
            };
            v = v * 16 + d as u16;
            i += 1;
        }
        Ok(v)
    }

    fn parse_escape(&mut self, out: &mut Vec<u8>) -> (r: Result<(), ParseError>)
        requires
            old(self).pos < old(self).bytes@.len(),
            old(self).bytes@[old(self).pos as int] == 0x5C,
        ensures
            final(self).bytes == old(self).bytes,
            final(self).pos <= final(self).bytes@.len(),
            match escape_at(old(self).bytes@, old(self).pos as int) {
                Ok((x, next)) => r is Ok && final(out)@ == old(out)@ + x && final(self).pos == next,
                Err(e) => r == Err::<(), ParseError>(e),
            },
    {
        let ghost b = self.bytes@;
        let ghost q = self.pos as int;
        assert(self.bytes.len() == self.bytes@.len());
        self.pos += 1;
        let e = match self.bump() {
            Some(e) => e,
            None => return Err(ParseError::Syntax),
        };
        if e == 0x22 || e == 0x5C || e == 0x2F {
            out.push(e);
        } else if e == 0x62 {
            out.push(0x08);
        } else if e == 0x66 {
            out.push(0x0C);
        } else if e == 0x6E {
            out.push(0x0A);
        } else if e == 0x72 {
            out.push(0x0D);
        } else if e == 0x74 {
            out.push(0x09);
        } else if e == 0x75 {
            let hi = self.hex4()?;
            let cp: u32 = if hi >= 0xD800 && hi < 0xDC00 {
                // A high surrogate: an escaped low surrogate must follow.
                self.eat(0x5C)?;
                self.eat(0x75)?;
                let lo = self.hex4()?;
                if !(lo >= 0xDC00 && lo < 0xE000) {
                    return Err(ParseError::Syntax);
                }
                proof {
                    let h: u32 = (hi - 0xD800) as u32;
                    assert(h < 1024 ==> h << 10 == h * 1024) by (bit_vector);
                }
                0x10000u32 + (((hi as u32) - 0xD800) << 10) + ((lo as u32) - 0xDC00)
            } else if hi >= 0xDC00 && hi < 0xE000 {
                // A lone low surrogate.
                return Err(ParseError::Syntax);
            } else {
                hi as u32
            };
            push_utf8(out, cp);
        } else {
            return Err(ParseError::Syntax);
        }
        Ok(())
    }

    fn copy_sequence(&mut self, out: &mut Vec<u8>) -> (r: Result<(), ParseError>)
        requires
            old(self).pos < old(self).bytes@.len(),
            old(self).bytes@[old(self).pos as int] >= 0xC0,
        ensures
            final(self).bytes == old(self).bytes,
            final(self).pos <= final(self).bytes@.len(),
            ({
                let b = old(self).bytes@;
                let q = old(self).pos as int;
                let w = lead_width(b[q]);
                if q + w > b.len() || !valid_utf8(b.subrange(q, q + w)) {
                    r == Err::<(), ParseError>(ParseError::Syntax)
                } else {
                    r is Ok && final(out)@ == old(out)@ + b.subrange(q, q + w) && final(self).pos == q + w
                }
            }),
    {
        let ghost b = self.bytes@;
        let c = self.bytes[self.pos];
        let len: usize = if c >= 0xF0 {
            4
        } else if c >= 0xE0 {
            3
        } else {
            2
        };
        let start = self.pos;
        if len > self.bytes.len() - start {
            return Err(ParseError::Syntax);
        }
        let end = start + len;
        if !utf8_sequence_ok(self.bytes, start, len) {
            return Err(ParseError::Syntax);
        }
        let ghost before = out@;
        let mut k = start;
        while k < end
            invariant
                self.bytes@ == b,
                start <= k <= end,
                end <= b.len(),
                out@ == before + b.subrange(start as int, k as int),
            decreases end - k,
        {
            out.push(self.bytes[k]);
            assert(b.subrange(start as int, k + 1) =~= b.subrange(start as int, k as int).push(
                b[k as int],
            ));
            k += 1;
        }
        self.pos = end;
        Ok(())
    }

    fn parse_string(&mut self) -> (r: Result<Vec<u8>, ParseError>)
        requires
            old(self).pos <= old(self).bytes@.len(),
        ensures
            final(self).bytes == old(self).bytes,
            final(self).pos <= final(self).bytes@.len(),
            match string_at(old(self).bytes@, old(self).pos as int) {
                Ok((s, e)) => r matches Ok(x) && x@ == s && final(self).pos == e,
                Err(x) => r == Err::<Vec<u8>, ParseError>(x),
            },
            forall|s: Seq<u8>|
                valid_utf8(s) && #[trigger] matches_at(old(self).bytes@, old(self).pos as int, quoted(s))
                    ==> (r matches Ok(x) && x@ == s && final(self).pos == old(self).pos + quoted(s).len()),
    {
        let ghost b = self.bytes@;
        let ghost p0 = self.pos as int;
        proof {
            assert forall|s: Seq<u8>|
                valid_utf8(s) && #[trigger] matches_at(b, p0, quoted(s)) implies string_at(b, p0)
                    == Ok::<(Seq<u8>, int), ParseError>((s, p0 + quoted(s).len())) by {
                lemma_string_roundtrip(s, b, p0);
            }
        }
        self.eat(0x22)?;
        let mut out: Vec<u8> = Vec::new();
        loop
            invariant
                self.bytes@ == b,
                self.bytes == old(self).bytes,
                b == old(self).bytes@,
                p0 == old(self).pos,
                p0 < self.pos <= b.len(),
                string_at(b, p0) == string_body(b, self.pos as int, out@),
                forall|s: Seq<u8>|
                    valid_utf8(s) && #[trigger] matches_at(b, p0, quoted(s)) ==> string_at(b, p0)
                        == Ok::<(Seq<u8>, int), ParseError>((s, p0 + quoted(s).len())),
            decreases b.len() - self.pos,
        {
            let c = match self.peek() {
                None => return Err(ParseError::Syntax),
                Some(c) => c,
            };
            if c == 0x22 {
                self.pos += 1;
                return Ok(out);
            } else if c == 0x5C {
                self.parse_escape(&mut out)?;
            } else if c < 0x20 {
                // An unescaped control character.
                return Err(ParseError::Syntax);
            } else if c < 0x80 {
                self.pos += 1;
                out.push(c);
            } else if c < 0xC0 {
                // A continuation byte cannot start a character.
                return Err(ParseError::Syntax);
            } else {
                // Multi-byte UTF-8: check the sequence, then copy it.
                self.copy_sequence(&mut out)?;
            }
        }
    }
}

} // verus!
