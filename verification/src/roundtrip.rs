//! Canonical form is a fixed point: the parser reads the canonical form of
//! every value it produces back as the same value.
use vstd::prelude::*;
use vstd::utf8::{valid_utf8, valid_utf8_concat, encode_scalar, valid_first_scalar, pop_first_scalar, take_first_scalar, length_of_first_scalar, is_leading_byte_width_1};
use crate::value::{JsonValue, MAX_SAFE_INT};
use crate::canon::{canonical, join_items, join_members, quoted, escaped, escape_byte, int_text, nat_text, printed_int, digit_char, hex_char, QUOTE, BACKSLASH};
use crate::parse::{MAX_DEPTH, is_ws, is_digit, is_hex, hex_value, hex4_at, short_escape, unicode_escape_at, escape_at, string_body, string_at, skip_ws_from, digits_end, digits_value, matches_at, number_at, value_at, array_at, items_from, object_at, members_from, has_key, insert_position, parse_json};
use crate::domain::{well_formed, items_well_formed, members_well_formed, names_ascending, lemma_items_well_formed, lemma_members_well_formed};
use crate::order::{key_less, key_equal, lemma_key_less_asymmetric};
use crate::utf16::lead_width;

verus! {

/// Position `i` ends a value inside canonical output: the end of the input,
/// or a comma or closing bracket.
pub open spec fn closes(b: Seq<u8>, i: int) -> bool {
    i == b.len() || (0 <= i < b.len() && (b[i] == 0x2C || b[i] == 0x5D || b[i] == 0x7D))
}

proof fn lemma_matches_split(b: Seq<u8>, p: int, x: Seq<u8>, y: Seq<u8>)
    requires
        matches_at(b, p, x + y),
    ensures
        matches_at(b, p, x),
        matches_at(b, p + x.len(), y),
{
    let whole = b.subrange(p, p + (x + y).len());
    assert(whole == x + y);
    assert(b.subrange(p, p + x.len()) =~= whole.subrange(0, x.len() as int));
    assert(whole.subrange(0, x.len() as int) =~= x);
    assert(b.subrange(p + x.len(), p + x.len() + y.len()) =~= whole.subrange(
        x.len() as int,
        whole.len() as int,
    ));
    assert(whole.subrange(x.len() as int, whole.len() as int) =~= y);
}

proof fn lemma_matches_index(b: Seq<u8>, p: int, x: Seq<u8>, i: int)
    requires
        matches_at(b, p, x),
        0 <= i < x.len(),
    ensures
        b[p + i] == x[i],
{
    assert(b.subrange(p, p + x.len())[i] == x[i]);
}

/// Decimal text consists of digits, starts with `0` only for zero, and
/// reads back as the number.
proof fn lemma_nat_text(m: nat)
    ensures
        nat_text(m).len() >= 1,
        forall|i: int| 0 <= i < nat_text(m).len() ==> is_digit(#[trigger] nat_text(m)[i]),
        (nat_text(m)[0] == 0x30) == (m == 0),
        digits_value(nat_text(m)) == m,
    decreases m,
{
    if m >= 10 {
        lemma_nat_text(m / 10);
        let t = nat_text(m / 10);
        assert(nat_text(m).drop_last() =~= t);
        assert(nat_text(m)[0] == t[0]);
        assert(nat_text(m).last() == 48 + m % 10);
        assert(digits_value(nat_text(m)) == digits_value(t) * 10 + (m % 10));
    } else {
        assert(seq![digit_char(m as int)].drop_last() =~= Seq::<u8>::empty());
        assert(digits_value(Seq::<u8>::empty()) == 0);
        assert(digit_char(m as int) == 48 + m);
    }
}

/// Digit scanning stops exactly at the end of a run of digits.
proof fn lemma_digits_end_at(b: Seq<u8>, q: int, end: int)
    requires
        0 <= q <= end <= b.len(),
        forall|i: int| q <= i < end ==> is_digit(#[trigger] b[i]),
        end == b.len() || !is_digit(b[end]),
    ensures
        digits_end(b, q) == end,
    decreases end - q,
{
    if q < end {
        lemma_digits_end_at(b, q + 1, end);
    }
}

/// The canonical text of an admissible integer reads back as that integer.
proof fn lemma_number_roundtrip(n: int, b: Seq<u8>, p: int)
    requires
        -MAX_SAFE_INT <= n <= MAX_SAFE_INT,
        matches_at(b, p, int_text(n)),
        closes(b, p + int_text(n).len()),
    ensures
        number_at(b, p) == Ok::<(JsonValue, int), crate::parse::ParseError>((JsonValue::Int(n), p + int_text(n).len())),
{
    let m: nat = if n < 0 { (-n) as nat } else { n as nat };
    lemma_nat_text(m);
    let t = nat_text(m);
    let q = if n < 0 { p + 1 } else { p };
    let end = p + int_text(n).len();
    if n < 0 {
        lemma_matches_split(b, p, seq![0x2Du8], t);
        lemma_matches_index(b, p, seq![0x2Du8], 0);
    }
    assert(matches_at(b, q, t));
    assert forall|i: int| q <= i < end implies is_digit(#[trigger] b[i]) by {
        lemma_matches_index(b, q, t, i - q);
    }
    lemma_matches_index(b, q, t, 0);
    assert(q == (if 0 <= p < b.len() && b[p] == 0x2D { p + 1 } else { p }));
    let e = if b[q] == 0x30 { q + 1 } else { digits_end(b, q) };
    if b[q] != 0x30 {
        lemma_digits_end_at(b, q, end);
    } else {
        assert(t.len() == 1) by {
            if t.len() > 1 {
                assert(m == 0);
            }
        }
    }
    assert(e == end);
    assert(b.subrange(q, e) =~= t);
}

proof fn lemma_escaped_concat(x: Seq<u8>, y: Seq<u8>)
    ensures
        escaped(x + y) == escaped(x) + escaped(y),
    decreases y.len(),
{
    if y.len() == 0 {
        assert(x + y =~= x);
        assert(escaped(x) + escaped(y) =~= escaped(x));
    } else {
        lemma_escaped_concat(x, y.drop_last());
        assert((x + y).drop_last() =~= x + y.drop_last());
        assert((x + y).last() == y.last());
        assert(escaped(x + y) =~= escaped(x) + escaped(y));
    }
}

proof fn lemma_escaped_single(c: u8)
    ensures
        escaped(seq![c]) == escape_byte(c),
{
    assert(seq![c].drop_last() =~= Seq::<u8>::empty());
    assert(escaped(Seq::<u8>::empty()) + escape_byte(c) =~= escape_byte(c));
}

/// Bytes at or above 0x80 are written as they are.
proof fn lemma_escaped_high(s: Seq<u8>)
    requires
        forall|i: int| 0 <= i < s.len() ==> #[trigger] s[i] >= 0x80,
    ensures
        escaped(s) == s,
    decreases s.len(),
{
    if s.len() > 0 {
        lemma_escaped_high(s.drop_last());
        assert(escaped(s) =~= s.drop_last().push(s.last()));
        assert(s.drop_last().push(s.last()) =~= s);
    }
}

proof fn lemma_hex_char(n: u8)
    requires
        n < 16,
    ensures
        is_hex(hex_char(n)),
        hex_value(hex_char(n)) == n,
{
}

/// A control character written as `\u00xx` is read back as itself.
proof fn lemma_string_step_control(b: Seq<u8>, q: int, c: u8)
    requires
        c < 0x20,
        matches_at(b, q, escape_byte(c)),
        escape_byte(c).len() == 6,
    ensures
        escape_at(b, q) == Ok::<(Seq<u8>, int), crate::parse::ParseError>((seq![c], q + 6)),
{
    let eb = escape_byte(c);
    lemma_matches_index(b, q, eb, 1);
    lemma_matches_index(b, q, eb, 2);
    lemma_matches_index(b, q, eb, 3);
    lemma_matches_index(b, q, eb, 4);
    lemma_matches_index(b, q, eb, 5);
    let hi_n = c >> 4;
    let lo_n = c & 0x0F;
    assert(c < 0x20 ==> (c >> 4) < 16 && (c & 0x0F) < 16 && (c >> 4) * 16 + (c & 0x0F) == c) by (bit_vector);
    lemma_hex_char(hi_n);
    lemma_hex_char(lo_n);
    assert(hex4_at(b, q + 2) == Some(c as int));
    assert(unicode_escape_at(b, q + 2) == Ok::<(u32, int), crate::parse::ParseError>((c as u32, q + 6)));
    let cu = c as u32;
    assert(cu < 0x80 ==> ((cu & 0x7F) as u8) == c) by (bit_vector)
        requires cu == c as u32;
    assert(encode_scalar(c as u32) =~= seq![c]);
}

/// An ASCII character, written as canonical output writes it, is read back
/// as itself.
proof fn lemma_string_step_ascii(b: Seq<u8>, q: int, acc: Seq<u8>, c: u8)
    requires
        c < 0x80,
        matches_at(b, q, escape_byte(c)),
    ensures
        string_body(b, q, acc) == string_body(b, q + escape_byte(c).len(), acc.push(c)),
{
    let eb = escape_byte(c);
    lemma_matches_index(b, q, eb, 0);
    if c == QUOTE || c == BACKSLASH || c == 0x08 || c == 0x09 || c == 0x0A || c == 0x0C || c == 0x0D {
        lemma_matches_index(b, q, eb, 1);
        assert(escape_at(b, q) == Ok::<(Seq<u8>, int), crate::parse::ParseError>((seq![c], q + 2)));
        assert(acc + seq![c] =~= acc.push(c));
    } else if c < 0x20 {
        lemma_string_step_control(b, q, c);
        assert(acc + seq![c] =~= acc.push(c));
    }
}

/// The first character of valid UTF-8 that is not ASCII: a leading byte of
/// the width the parser reads, then continuation bytes; escaping copies it.
proof fn lemma_multi_head(s: Seq<u8>)
    requires
        valid_utf8(s),
        s.len() > 0,
        !is_leading_byte_width_1(s[0]),
    ensures
        s[0] >= 0xC0,
        take_first_scalar(s).len() == lead_width(s[0]),
        escaped(take_first_scalar(s)) == take_first_scalar(s),
        valid_utf8(take_first_scalar(s)),
{
    let w = length_of_first_scalar(s);
    let head = take_first_scalar(s);
    let c = s[0];
    assert(c >= 0xC0);
    assert(lead_width(c) == w);
    assert(head.len() == w && w >= 2);
    assert forall|i: int| 0 <= i < head.len() implies #[trigger] head[i] >= 0x80 by {}
    lemma_escaped_high(head);
    assert(head[0] == s[0] && head[1] == s[1]);
    if w >= 3 {
        assert(head[2] == s[2]);
    }
    if w >= 4 {
        assert(head[3] == s[3]);
    }
    assert(valid_first_scalar(head));
    assert(pop_first_scalar(head) =~= Seq::<u8>::empty());
    reveal_with_fuel(valid_utf8, 2);
    assert(valid_utf8(head));
}

/// A multi-byte character is copied by canonical output and read back as
/// itself.
proof fn lemma_string_step_multi(b: Seq<u8>, q: int, acc: Seq<u8>, s: Seq<u8>)
    requires
        valid_utf8(s),
        s.len() > 0,
        !is_leading_byte_width_1(s[0]),
        matches_at(b, q, escaped(take_first_scalar(s))),
    ensures
        escaped(take_first_scalar(s)) == take_first_scalar(s),
        string_body(b, q, acc) == string_body(
            b,
            q + take_first_scalar(s).len(),
            acc + take_first_scalar(s),
        ),
{
    let head = take_first_scalar(s);
    let w = head.len();
    lemma_multi_head(s);
    lemma_matches_index(b, q, head, 0);
    assert(b.subrange(q, q + w) == head);
}

/// One character of string content, written as canonical output writes it,
/// is read back as that character.
proof fn lemma_string_step(b: Seq<u8>, q: int, acc: Seq<u8>, s: Seq<u8>)
    requires
        valid_utf8(s),
        s.len() > 0,
        matches_at(b, q, escaped(take_first_scalar(s))),
    ensures
        string_body(b, q, acc) == string_body(
            b,
            q + escaped(take_first_scalar(s)).len(),
            acc + take_first_scalar(s),
        ),
{
    let head = take_first_scalar(s);
    let c = s[0];
    if is_leading_byte_width_1(c) {
        assert(head =~= seq![c]);
        lemma_escaped_single(c);
        lemma_string_step_ascii(b, q, acc, c);
        assert(acc + head =~= acc.push(c));
    } else {
        lemma_string_step_multi(b, q, acc, s);
    }
}

/// The escaped content of a UTF-8 string, followed by a closing quote, is
/// read back as that content.
proof fn lemma_string_body_roundtrip(s: Seq<u8>, b: Seq<u8>, q: int, acc: Seq<u8>)
    requires
        valid_utf8(s),
        matches_at(b, q, escaped(s) + seq![QUOTE]),
    ensures
        string_body(b, q, acc) == Ok::<(Seq<u8>, int), crate::parse::ParseError>(
            (acc + s, q + escaped(s).len() + 1),
        ),
    decreases s.len(),
{
    if s.len() == 0 {
        lemma_matches_index(b, q, escaped(s) + seq![QUOTE], 0);
        assert(acc + s =~= acc);
    } else {
        let head = take_first_scalar(s);
        let tail = pop_first_scalar(s);
        assert(s =~= head + tail);
        lemma_escaped_concat(head, tail);
        assert(escaped(s) + seq![QUOTE] =~= escaped(head) + (escaped(tail) + seq![QUOTE]));
        lemma_matches_split(b, q, escaped(head), escaped(tail) + seq![QUOTE]);
        lemma_string_step(b, q, acc, s);
        assert(tail.len() < s.len());
        lemma_string_body_roundtrip(tail, b, q + escaped(head).len(), acc + head);
        assert(acc + head + tail =~= acc + s);
    }
}

/// A canonical string literal is read back as its content.
pub proof fn lemma_string_roundtrip(s: Seq<u8>, b: Seq<u8>, p: int)
    requires
        valid_utf8(s),
        matches_at(b, p, quoted(s)),
    ensures
        string_at(b, p) == Ok::<(Seq<u8>, int), crate::parse::ParseError>((s, p + quoted(s).len())),
{
    assert(quoted(s) =~= seq![QUOTE] + (escaped(s) + seq![QUOTE]));
    lemma_matches_split(b, p, seq![QUOTE], escaped(s) + seq![QUOTE]);
    lemma_matches_index(b, p, seq![QUOTE], 0);
    lemma_string_body_roundtrip(s, b, p + 1, Seq::empty());
    assert(Seq::<u8>::empty() + s =~= s);
}

/// Law: the string reader undoes the string writer: the quoted, escaped
/// form of any UTF-8 content, quotes, backslashes and control bytes
/// included, is read back as that content, ending just after it.
pub proof fn law_string_round_trip(s: Seq<u8>)
    requires
        valid_utf8(s),
    ensures
        string_at(quoted(s), 0) == Ok::<(Seq<u8>, int), crate::parse::ParseError>((s, quoted(s).len() as int)),
{
    assert(quoted(s).subrange(0, quoted(s).len() as int) =~= quoted(s));
    lemma_string_roundtrip(s, quoted(s), 0);
}

/// The canonical forms of the elements, read from the front.
proof fn lemma_join_items_front(s: Seq<JsonValue>)
    requires
        s.len() > 0,
    ensures
        join_items(s) == canonical(s[0]) + (if s.len() > 1 {
            seq![0x2Cu8] + join_items(s.subrange(1, s.len() as int))
        } else {
            Seq::empty()
        }),
    decreases s.len(),
{
    if s.len() == 1 {
        assert(canonical(s[0]) + Seq::<u8>::empty() =~= canonical(s[0]));
    } else {
        let init = s.subrange(0, s.len() - 1);
        let tail = s.subrange(1, s.len() as int);
        lemma_join_items_front(init);
        assert(init[0] == s[0]);
        assert(tail.subrange(0, tail.len() - 1) =~= init.subrange(1, init.len() as int));
        assert(tail[tail.len() - 1] == s[s.len() - 1]);
        if s.len() == 2 {
            assert(tail =~= seq![s[1]]);
            assert(join_items(tail) == canonical(tail[0]));
            assert(join_items(init) == canonical(init[0]));
            assert(join_items(s) =~= canonical(s[0]) + (seq![0x2Cu8] + join_items(tail)));
        } else {
            assert(join_items(s) =~= canonical(s[0]) + (seq![0x2Cu8] + join_items(tail)));
        }
    }
}

/// The members, read from the front.
proof fn lemma_join_members_front(s: Seq<(Seq<u8>, JsonValue)>)
    requires
        s.len() > 0,
    ensures
        join_members(s) == quoted(s[0].0) + seq![0x3Au8] + canonical(s[0].1) + (if s.len() > 1 {
            seq![0x2Cu8] + join_members(s.subrange(1, s.len() as int))
        } else {
            Seq::empty()
        }),
    decreases s.len(),
{
    if s.len() == 1 {
        assert(quoted(s[0].0) + seq![0x3Au8] + canonical(s[0].1) + Seq::<u8>::empty()
            =~= quoted(s[0].0) + seq![0x3Au8] + canonical(s[0].1));
    } else {
        let init = s.subrange(0, s.len() - 1);
        let tail = s.subrange(1, s.len() as int);
        lemma_join_members_front(init);
        assert(init[0] == s[0]);
        assert(tail.subrange(0, tail.len() - 1) =~= init.subrange(1, init.len() as int));
        assert(tail[tail.len() - 1] == s[s.len() - 1]);
        if s.len() == 2 {
            assert(tail =~= seq![s[1]]);
            assert(join_members(s) =~= quoted(s[0].0) + seq![0x3Au8] + canonical(s[0].1) + (seq![0x2Cu8] + join_members(tail)));
        } else {
            assert(join_members(s) =~= quoted(s[0].0) + seq![0x3Au8] + canonical(s[0].1) + (seq![0x2Cu8] + join_members(tail)));
        }
    }
}

/// Canonical output of a value is not empty and does not start with
/// whitespace, a comma or a closing bracket.
proof fn lemma_canonical_start(v: JsonValue)
    ensures
        canonical(v).len() > 0,
        !is_ws(canonical(v)[0]),
        canonical(v)[0] != 0x2C && canonical(v)[0] != 0x5D && canonical(v)[0] != 0x7D,
{
    match v {
        JsonValue::Int(n) => {
            let m: nat = if n < 0 { (-n) as nat } else { n as nat };
            lemma_nat_text(m);
        },
        _ => {},
    }
}

proof fn lemma_skip_none(b: Seq<u8>, x: int)
    requires
        0 <= x,
        x == b.len() || (x < b.len() && !is_ws(b[x])),
    ensures
        skip_ws_from(b, x) == x,
{
}

/// No name in `acc` orders after `key`, so the parser appends `key`.
proof fn lemma_insert_position_end(acc: Seq<(Seq<u8>, JsonValue)>, key: Seq<u8>, j: int)
    requires
        0 <= j <= acc.len(),
        forall|i: int| j <= i < acc.len() ==> !key_less(key, #[trigger] acc[i].0),
    ensures
        insert_position(acc, key, j) == acc.len(),
    decreases acc.len() - j,
{
    if j < acc.len() {
        lemma_insert_position_end(acc, key, j + 1);
    }
}

/// The canonical form of an integer, followed by the end of the input, a
/// comma or a closing bracket, is read back as the integer.
proof fn lemma_int_value_roundtrip(v: JsonValue, b: Seq<u8>, p: int, depth: int)
    requires
        v is Int,
        well_formed(v, depth),
        matches_at(b, p, canonical(v)),
        closes(b, p + canonical(v).len()),
    ensures
        value_at(b, p, depth) == Ok::<(JsonValue, int), crate::parse::ParseError>(
            (v, p + canonical(v).len()),
        ),
{
    let n = v->Int_0;
    lemma_canonical_start(v);
    lemma_matches_index(b, p, canonical(v), 0);
    let m: nat = if n < 0 { (-n) as nat } else { n as nat };
    lemma_nat_text(m);
    lemma_number_roundtrip(n, b, p);
}

/// The canonical form of a string, `null` or a boolean is read back as it.
proof fn lemma_leaf_value_roundtrip(v: JsonValue, b: Seq<u8>, p: int, depth: int)
    requires
        v is Str || v is Null || v is Bool,
        well_formed(v, depth),
        matches_at(b, p, canonical(v)),
    ensures
        value_at(b, p, depth) == Ok::<(JsonValue, int), crate::parse::ParseError>(
            (v, p + canonical(v).len()),
        ),
{
    lemma_canonical_start(v);
    lemma_matches_index(b, p, canonical(v), 0);
    if let JsonValue::Str(s) = v {
        lemma_string_roundtrip(s, b, p);
    }
}

/// The canonical form of a well-formed value, followed by the end of the
/// input, a comma or a closing bracket, is read back as the value.
pub proof fn lemma_value_roundtrip(v: JsonValue, b: Seq<u8>, p: int, depth: int)
    requires
        well_formed(v, depth),
        matches_at(b, p, canonical(v)),
        closes(b, p + canonical(v).len()),
    ensures
        value_at(b, p, depth) == Ok::<(JsonValue, int), crate::parse::ParseError>(
            (v, p + canonical(v).len()),
        ),
    decreases v, 2int,
{
    match v {
        JsonValue::Int(_) => {
            lemma_int_value_roundtrip(v, b, p, depth);
        },
        JsonValue::Array(_) => {
            lemma_canonical_start(v);
            lemma_matches_index(b, p, canonical(v), 0);
            lemma_array_roundtrip(v, b, p, depth);
        },
        JsonValue::Object(_) => {
            lemma_canonical_start(v);
            lemma_matches_index(b, p, canonical(v), 0);
            lemma_object_roundtrip(v, b, p, depth);
        },
        _ => {
            lemma_leaf_value_roundtrip(v, b, p, depth);
        },
    }
}

proof fn lemma_array_roundtrip(v: JsonValue, b: Seq<u8>, p: int, depth: int)
    requires
        v is Array,
        well_formed(v, depth),
        matches_at(b, p, canonical(v)),
    ensures
        array_at(b, p, depth) == Ok::<(JsonValue, int), crate::parse::ParseError>(
            (v, p + canonical(v).len()),
        ),
    decreases v, 1int,
{
    let items = v->Array_0;
    let j = join_items(items);
    assert(canonical(v) =~= seq![0x5Bu8] + (j + seq![0x5Du8]));
    lemma_matches_split(b, p, seq![0x5Bu8], j + seq![0x5Du8]);
    lemma_matches_index(b, p, seq![0x5Bu8], 0);
    if items.len() == 0 {
        lemma_matches_index(b, p + 1, j + seq![0x5Du8], 0);
        lemma_skip_none(b, p + 1);
        assert(items =~= Seq::<JsonValue>::empty());
    } else {
        lemma_items_well_formed(items, depth + 1);
        lemma_join_items_front(items);
        lemma_canonical_start(items[0]);
        lemma_matches_index(b, p + 1, j + seq![0x5Du8], 0);
        assert((j + seq![0x5Du8])[0] == canonical(items[0])[0]);
        lemma_skip_none(b, p + 1);
        lemma_items_roundtrip(items, b, p + 1, depth, Seq::empty());
        assert(Seq::<JsonValue>::empty() + items =~= items);
    }
}

proof fn lemma_object_roundtrip(v: JsonValue, b: Seq<u8>, p: int, depth: int)
    requires
        v is Object,
        well_formed(v, depth),
        matches_at(b, p, canonical(v)),
    ensures
        object_at(b, p, depth) == Ok::<(JsonValue, int), crate::parse::ParseError>(
            (v, p + canonical(v).len()),
        ),
    decreases v, 1int,
{
    let ms = v->Object_0;
    let j = join_members(ms);
    assert(canonical(v) =~= seq![0x7Bu8] + (j + seq![0x7Du8]));
    lemma_matches_split(b, p, seq![0x7Bu8], j + seq![0x7Du8]);
    lemma_matches_index(b, p, seq![0x7Bu8], 0);
    if ms.len() == 0 {
        lemma_matches_index(b, p + 1, j + seq![0x7Du8], 0);
        lemma_skip_none(b, p + 1);
        assert(ms =~= Seq::<(Seq<u8>, JsonValue)>::empty());
    } else {
        lemma_join_members_front(ms);
        lemma_matches_index(b, p + 1, j + seq![0x7Du8], 0);
        assert(quoted(ms[0].0)[0] == QUOTE);
        assert((j + seq![0x7Du8])[0] == j[0]);
        lemma_skip_none(b, p + 1);
        assert(Seq::<(Seq<u8>, JsonValue)>::empty() + ms =~= ms);
        lemma_members_roundtrip(ms, b, p + 1, depth, Seq::empty());
    }
}

/// The canonical forms of well-formed elements, separated by commas and
/// followed by `]`, are read back as those elements.
proof fn lemma_items_roundtrip(items: Seq<JsonValue>, b: Seq<u8>, q: int, depth: int, acc: Seq<JsonValue>)
    requires
        items.len() > 0,
        0 <= depth <= MAX_DEPTH,
        forall|i: int| 0 <= i < items.len() ==> well_formed(#[trigger] items[i], depth + 1),
        matches_at(b, q, join_items(items) + seq![0x5Du8]),
    ensures
        items_from(b, q, depth, acc) == Ok::<(JsonValue, int), crate::parse::ParseError>(
            (JsonValue::Array(acc + items), q + join_items(items).len() + 1),
        ),
    decreases items, 0int,
{
    let first = items[0];
    let c0 = canonical(first);
    lemma_join_items_front(items);
    lemma_canonical_start(first);
    let rest = if items.len() > 1 {
        seq![0x2Cu8] + join_items(items.subrange(1, items.len() as int))
    } else {
        Seq::empty()
    };
    assert(join_items(items) + seq![0x5Du8] =~= c0 + (rest + seq![0x5Du8]));
    lemma_matches_split(b, q, c0, rest + seq![0x5Du8]);
    lemma_matches_index(b, q, c0, 0);
    lemma_skip_none(b, q);
    let e = q + c0.len();
    lemma_matches_index(b, e, rest + seq![0x5Du8], 0);
    lemma_value_roundtrip(first, b, q, depth + 1);
    lemma_skip_none(b, e);
    if items.len() > 1 {
        let tail = items.subrange(1, items.len() as int);
        assert(rest + seq![0x5Du8] =~= seq![0x2Cu8] + (join_items(tail) + seq![0x5Du8]));
        lemma_matches_split(b, e, seq![0x2Cu8], join_items(tail) + seq![0x5Du8]);
        assert forall|i: int| 0 <= i < tail.len() implies well_formed(#[trigger] tail[i], depth + 1) by {
            assert(tail[i] == items[i + 1]);
        }
        lemma_items_roundtrip(tail, b, e + 1, depth, acc.push(first));
        assert(acc.push(first) + tail =~= acc + items);
    } else {
        assert(acc.push(first) =~= acc + items);
    }
}

/// Canonical members with ascending names, separated by commas and followed
/// by `}`, are read back as those members.
proof fn lemma_members_roundtrip(
    ms: Seq<(Seq<u8>, JsonValue)>,
    b: Seq<u8>,
    q: int,
    depth: int,
    acc: Seq<(Seq<u8>, JsonValue)>,
)
    requires
        ms.len() > 0,
        0 <= depth <= MAX_DEPTH,
        members_well_formed(ms, depth + 1),
        names_ascending(acc + ms),
        matches_at(b, q, join_members(ms) + seq![0x7Du8]),
    ensures
        members_from(b, q, depth, acc) == Ok::<(JsonValue, int), crate::parse::ParseError>(
            (JsonValue::Object(acc + ms), q + join_members(ms).len() + 1),
        ),
    decreases ms, 0int,
{
    lemma_members_well_formed(ms, depth + 1);
    let key = ms[0].0;
    let first = ms[0].1;
    assert(valid_utf8(key) && well_formed(first, depth + 1));
    let qk = quoted(key);
    let c0 = canonical(first);
    lemma_join_members_front(ms);
    lemma_canonical_start(first);
    let rest = if ms.len() > 1 {
        seq![0x2Cu8] + join_members(ms.subrange(1, ms.len() as int))
    } else {
        Seq::empty()
    };
    assert(join_members(ms) + seq![0x7Du8] =~= qk + (seq![0x3Au8] + (c0 + (rest + seq![0x7Du8]))));
    lemma_matches_split(b, q, qk, seq![0x3Au8] + (c0 + (rest + seq![0x7Du8])));
    lemma_matches_index(b, q, qk, 0);
    lemma_skip_none(b, q);
    lemma_string_roundtrip(key, b, q);
    let k = q + qk.len();
    lemma_matches_split(b, k, seq![0x3Au8], c0 + (rest + seq![0x7Du8]));
    lemma_matches_index(b, k, seq![0x3Au8], 0);
    lemma_skip_none(b, k);
    let vs = k + 1;
    lemma_matches_split(b, vs, c0, rest + seq![0x7Du8]);
    lemma_matches_index(b, vs, c0, 0);
    lemma_skip_none(b, vs);
    let e = vs + c0.len();
    lemma_matches_index(b, e, rest + seq![0x7Du8], 0);
    lemma_value_roundtrip(first, b, vs, depth + 1);
    lemma_skip_none(b, e);
    let all = acc + ms;
    assert(all[acc.len() as int] == ms[0]);
    assert forall|i: int| 0 <= i < acc.len() implies !key_less(key, #[trigger] acc[i].0) && !key_equal(key, acc[i].0) by {
        assert(all[i] == acc[i]);
        assert(key_less(all[i].0, all[acc.len() as int].0));
        lemma_key_less_asymmetric(acc[i].0, key);
    }
    assert(!has_key(acc, key));
    lemma_insert_position_end(acc, key, 0);
    assert(acc.insert(acc.len() as int, (key, first)) =~= acc.push((key, first)));
    if ms.len() > 1 {
        let tail = ms.subrange(1, ms.len() as int);
        assert(rest + seq![0x7Du8] =~= seq![0x2Cu8] + (join_members(tail) + seq![0x7Du8]));
        lemma_matches_split(b, e, seq![0x2Cu8], join_members(tail) + seq![0x7Du8]);
        assert(acc.push((key, first)) + tail =~= acc + ms);
        lemma_members_well_formed(tail, depth + 1);
        assert forall|i: int| 0 <= i < tail.len() implies valid_utf8(#[trigger] tail[i].0) && well_formed(tail[i].1, depth + 1) by {
            assert(tail[i] == ms[i + 1]);
        }
        lemma_members_roundtrip(tail, b, e + 1, depth, acc.push((key, first)));
    } else {
        assert(acc.push((key, first)) =~= acc + ms);
    }
}

/// Law: the parser reads the canonical form of every well-formed value back
/// as that value.
pub proof fn law_canonical_round_trip(v: JsonValue)
    requires
        well_formed(v, 0),
    ensures
        parse_json(canonical(v)) == Ok::<JsonValue, crate::parse::ParseError>(v),
{
    let b = canonical(v);
    lemma_canonical_start(v);
    lemma_skip_none(b, 0);
    assert(b.subrange(0, b.len() as int) =~= b);
    lemma_value_roundtrip(v, b, 0, 0);
    lemma_skip_none(b, b.len() as int);
}

/// Law (fixed point): for every document the parser accepts, the canonical
/// form of its value parses back to the same value, so canonicalizing that
/// form again reproduces it exactly.
pub proof fn law_canonical_fixed_point(b: Seq<u8>)
    ensures
        parse_json(b) matches Ok(v) ==> parse_json(canonical(v)) == Ok::<JsonValue, crate::parse::ParseError>(v),
{
    crate::domain::law_parse_output_well_formed(b);
    if let Ok(v) = parse_json(b) {
        law_canonical_round_trip(v);
    }
}

/// A sequence of ASCII bytes is valid UTF-8.
proof fn lemma_ascii_seq_valid(s: Seq<u8>)
    requires
        forall|i: int| 0 <= i < s.len() ==> #[trigger] s[i] < 0x80,
    ensures
        valid_utf8(s),
    decreases s.len(),
{
    if s.len() > 0 {
        let init = s.drop_last();
        lemma_ascii_seq_valid(init);
        crate::domain::lemma_ascii_valid(s.last());
        valid_utf8_concat(init, seq![s.last()]);
        assert(init + seq![s.last()] =~= s);
    }
}

/// Escaping keeps UTF-8 valid.
proof fn lemma_escaped_valid(s: Seq<u8>)
    requires
        valid_utf8(s),
    ensures
        valid_utf8(escaped(s)),
    decreases s.len(),
{
    if s.len() > 0 {
        let head = take_first_scalar(s);
        let tail = pop_first_scalar(s);
        assert(s =~= head + tail);
        lemma_escaped_concat(head, tail);
        lemma_escaped_valid(tail);
        let c = s[0];
        if is_leading_byte_width_1(c) {
            assert(head =~= seq![c]);
            lemma_escaped_single(c);
            assert((c >> 4) < 16 && (c & 0x0F) < 16) by (bit_vector);
            lemma_hex_char(c >> 4);
            lemma_hex_char(c & 0x0F);
            lemma_ascii_seq_valid(escape_byte(c));
        } else {
            lemma_multi_head(s);
        }
        valid_utf8_concat(escaped(head), escaped(tail));
    }
}

/// The members' text is valid UTF-8.
proof fn lemma_join_members_valid(ms: Seq<(Seq<u8>, JsonValue)>, depth: int)
    requires
        members_well_formed(ms, depth),
    ensures
        valid_utf8(join_members(ms)),
    decreases ms, 0int,
{
    if ms.len() > 0 {
        let last = ms[ms.len() - 1];
        let init = ms.subrange(0, ms.len() - 1);
        lemma_join_members_valid(init, depth);
        lemma_canonical_valid(last.1, depth);
        lemma_escaped_valid(last.0);
        lemma_ascii_seq_valid(seq![QUOTE]);
        lemma_ascii_seq_valid(seq![0x3Au8]);
        lemma_ascii_seq_valid(seq![0x2Cu8]);
        valid_utf8_concat(seq![QUOTE], escaped(last.0));
        valid_utf8_concat(seq![QUOTE] + escaped(last.0), seq![QUOTE]);
        let m = quoted(last.0) + seq![0x3Au8] + canonical(last.1);
        valid_utf8_concat(quoted(last.0), seq![0x3Au8]);
        valid_utf8_concat(quoted(last.0) + seq![0x3Au8], canonical(last.1));
        if ms.len() == 1 {
        } else {
            valid_utf8_concat(join_members(init), seq![0x2Cu8]);
            valid_utf8_concat(join_members(init) + seq![0x2Cu8], quoted(last.0));
            valid_utf8_concat(join_members(init) + seq![0x2Cu8] + quoted(last.0), seq![0x3Au8]);
            valid_utf8_concat(join_members(init) + seq![0x2Cu8] + quoted(last.0) + seq![0x3Au8], canonical(last.1));
        }
    }
}

/// The elements' text is valid UTF-8.
proof fn lemma_join_items_valid(items: Seq<JsonValue>, depth: int)
    requires
        items_well_formed(items, depth),
    ensures
        valid_utf8(join_items(items)),
    decreases items, 0int,
{
    if items.len() > 0 {
        let last = items[items.len() - 1];
        let init = items.subrange(0, items.len() - 1);
        lemma_canonical_valid(last, depth);
        if items.len() > 1 {
            lemma_join_items_valid(init, depth);
            lemma_ascii_seq_valid(seq![0x2Cu8]);
            valid_utf8_concat(join_items(init), seq![0x2Cu8]);
            valid_utf8_concat(join_items(init) + seq![0x2Cu8], canonical(last));
        }
    }
}

/// The canonical form of a well-formed value is valid UTF-8.
proof fn lemma_canonical_valid(v: JsonValue, depth: int)
    requires
        well_formed(v, depth),
    ensures
        valid_utf8(canonical(v)),
    decreases v, 1int,
{
    match v {
        JsonValue::Int(n) => {
            let m: nat = if n < 0 { (-n) as nat } else { n as nat };
            lemma_nat_text(m);
            let t = int_text(n);
            assert forall|i: int| 0 <= i < t.len() implies #[trigger] t[i] < 0x80 by {
                if n < 0 && i > 0 {
                    assert(t[i] == nat_text(m)[i - 1]);
                } else if n >= 0 {
                    assert(t[i] == nat_text(m)[i]);
                }
            }
            lemma_ascii_seq_valid(t);
        },
        JsonValue::Str(s) => {
            lemma_escaped_valid(s);
            lemma_ascii_seq_valid(seq![QUOTE]);
            valid_utf8_concat(seq![QUOTE], escaped(s));
            valid_utf8_concat(seq![QUOTE] + escaped(s), seq![QUOTE]);
        },
        JsonValue::Array(items) => {
            lemma_join_items_valid(items, depth + 1);
            lemma_ascii_seq_valid(seq![0x5Bu8]);
            lemma_ascii_seq_valid(seq![0x5Du8]);
            valid_utf8_concat(seq![0x5Bu8], join_items(items));
            valid_utf8_concat(seq![0x5Bu8] + join_items(items), seq![0x5Du8]);
        },
        JsonValue::Object(ms) => {
            lemma_join_members_valid(ms, depth + 1);
            lemma_ascii_seq_valid(seq![0x7Bu8]);
            lemma_ascii_seq_valid(seq![0x7Du8]);
            valid_utf8_concat(seq![0x7Bu8], join_members(ms));
            valid_utf8_concat(seq![0x7Bu8] + join_members(ms), seq![0x7Du8]);
        },
        _ => {
            lemma_ascii_seq_valid(canonical(v));
        },
    }
}

/// Law: the canonical form of every well-formed value, and so of every value
/// the parser produces, is valid UTF-8.
pub proof fn law_canonical_is_utf8(v: JsonValue)
    requires
        well_formed(v, 0),
    ensures
        valid_utf8(canonical(v)),
{
    lemma_canonical_valid(v, 0);
}

} // verus!
