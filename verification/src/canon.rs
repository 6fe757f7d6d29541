//! RFC 8785 (JCS) serialization of values of the restricted HAPS domain.
use vstd::prelude::*;
use crate::value::{Value, JsonValue, model_items, model_members, lemma_model_items, lemma_model_members};

verus! {

/// Buffer size for [`int_digits`]: 19 digits and a sign, with room to spare.
pub const INT_BUF: usize = 24;

/// The double quote.
pub const QUOTE: u8 = 0x22;

/// The backslash.
pub const BACKSLASH: u8 = 0x5C;

/// The ASCII digit for `d < 10`.
pub open spec fn digit_char(d: int) -> u8 {
    (48 + d) as u8
}

/// Decimal digits of a natural number, most significant first, without
/// leading zeros.
pub open spec fn nat_text(m: nat) -> Seq<u8>
    decreases m,
{
    if m < 10 {
        seq![digit_char(m as int)]
    } else {
        nat_text(m / 10).push(digit_char((m % 10) as int))
    }
}

/// Plain decimal text of an integer: a minus sign for negative numbers, no
/// plus sign, no exponent, no leading zeros.
pub open spec fn int_text(n: int) -> Seq<u8> {
    if n < 0 {
        seq![0x2Du8] + nat_text((-n) as nat)
    } else {
        nat_text(n as nat)
    }
}

/// The integer that the digit writer prints for `n`: `i64::MIN`, whose
/// magnitude does not fit in an `i64`, is printed as `-i64::MAX`.
pub open spec fn printed_int(n: int) -> int {
    if n < -0x7fff_ffff_ffff_ffff {
        -0x7fff_ffff_ffff_ffff
    } else {
        n
    }
}

/// Lowercase hexadecimal digit of a nibble.
pub open spec fn hex_char(nibble: u8) -> u8 {
    if nibble < 10 {
        (48 + nibble) as u8
    } else {
        (97 + (nibble - 10)) as u8
    }
}

/// How RFC 8785 writes one byte of string content: quote and backslash are
/// escaped, the five control characters with a short escape use it, other
/// control characters use `\u00xx` with lowercase hex, everything else is
/// copied.
pub open spec fn escape_byte(b: u8) -> Seq<u8> {
    if b == QUOTE {
        seq![BACKSLASH, QUOTE]
    } else if b == BACKSLASH {
        seq![BACKSLASH, BACKSLASH]
    } else if b == 0x08 {
        seq![BACKSLASH, 0x62u8]
    } else if b == 0x09 {
        seq![BACKSLASH, 0x74u8]
    } else if b == 0x0A {
        seq![BACKSLASH, 0x6Eu8]
    } else if b == 0x0C {
        seq![BACKSLASH, 0x66u8]
    } else if b == 0x0D {
        seq![BACKSLASH, 0x72u8]
    } else if b < 0x20 {
        seq![BACKSLASH, 0x75u8, 0x30u8, 0x30u8, hex_char(b >> 4), hex_char(b & 0x0F)]
    } else {
        seq![b]
    }
}

/// String content with every byte written by [`escape_byte`].
pub open spec fn escaped(s: Seq<u8>) -> Seq<u8>
    decreases s.len(),
{
    if s.len() == 0 {
        Seq::empty()
    } else {
        escaped(s.drop_last()) + escape_byte(s.last())
    }
}

/// A JSON string literal for the given content.
pub open spec fn quoted(s: Seq<u8>) -> Seq<u8> {
    seq![QUOTE] + escaped(s) + seq![QUOTE]
}

/// The canonical form of a value.
pub open spec fn canonical(j: JsonValue) -> Seq<u8>
    decreases j,
{
    match j {
        JsonValue::Null => seq![0x6Eu8, 0x75u8, 0x6Cu8, 0x6Cu8],
        JsonValue::Bool(true) => seq![0x74u8, 0x72u8, 0x75u8, 0x65u8],
        JsonValue::Bool(false) => seq![0x66u8, 0x61u8, 0x6Cu8, 0x73u8, 0x65u8],
        JsonValue::Int(n) => int_text(printed_int(n)),
        JsonValue::Str(s) => quoted(s),
        JsonValue::Array(items) => seq![0x5Bu8] + join_items(items) + seq![0x5Du8],
        JsonValue::Object(members) => seq![0x7Bu8] + join_members(members) + seq![0x7Du8],
    }
}

/// The canonical forms of the elements, separated by commas.
pub open spec fn join_items(s: Seq<JsonValue>) -> Seq<u8>
    decreases s,
{
    if s.len() == 0 {
        Seq::empty()
    } else if s.len() == 1 {
        canonical(s[0])
    } else {
        join_items(s.subrange(0, s.len() - 1)) + seq![0x2Cu8] + canonical(s[s.len() - 1])
    }
}

/// The members, separated by commas, in the order given.
pub open spec fn join_members(s: Seq<(Seq<u8>, JsonValue)>) -> Seq<u8>
    decreases s,
{
    if s.len() == 0 {
        Seq::empty()
    } else if s.len() == 1 {
        quoted(s[0].0) + seq![0x3Au8] + canonical(s[0].1)
    } else {
        join_members(s.subrange(0, s.len() - 1)) + seq![0x2Cu8] + quoted(s[s.len() - 1].0) + seq![
            0x3Au8,
        ] + canonical(s[s.len() - 1].1)
    }
}

/// Serialize a value. Objects are written in the order of their members and
/// are not sorted here; the parser produces them sorted.
pub fn canonicalize(value: &Value) -> (out: Vec<u8>)
    ensures
        out@ == canonical(value@),
{
    write_value(value)
}

fn write_value(value: &Value) -> (out: Vec<u8>)
    ensures
        out@ == canonical(value@),
    decreases value,
{
    let mut out: Vec<u8> = Vec::new();
    match value {
        Value::Null => {
            out.push(0x6Eu8);
            out.push(0x75u8);
            out.push(0x6Cu8);
            out.push(0x6Cu8);
        },
        Value::Bool(true) => {
            out.push(0x74u8);
            out.push(0x72u8);
            out.push(0x75u8);
            out.push(0x65u8);
        },
        Value::Bool(false) => {
            out.push(0x66u8);
            out.push(0x61u8);
            out.push(0x6Cu8);
            out.push(0x73u8);
            out.push(0x65u8);
        },
        Value::Int(n) => {
            let digits = write_int(*n);
            append(&mut out, &digits);
        },
        Value::Str(s) => {
            let text = write_string(s);
            append(&mut out, &text);
        },
        Value::Array(items) => {
            proof {
                lemma_model_items(items@);
            }
            let ghost ms = model_items(items@);
            out.push(0x5Bu8);
            let mut i: usize = 0;
            while i < items.len()
                invariant
                    0 <= i <= items.len(),
                    ms == model_items(items@),
                    ms.len() == items@.len(),
                    forall|k: int| 0 <= k < items@.len() ==> #[trigger] ms[k] == items@[k]@,
                    decreases_to!(*value => *items),
                    out@ == seq![0x5Bu8] + join_items(ms.take(i as int)),
                decreases items.len() - i,
            {
                if i > 0 {
                    out.push(0x2Cu8);
                }
                assert(decreases_to!(*items => items@));
                assert(decreases_to!(items@ => items@[i as int]));
                let part = write_value(&items[i]);
                append(&mut out, &part);
                assert(ms.take(i + 1).subrange(0, i as int) == ms.take(i as int));
                i += 1;
            }
            assert(ms.take(i as int) == ms);
            out.push(0x5Du8);
        },
        Value::Object(members) => {
            proof {
                lemma_model_members(members@);
            }
            let ghost ms = model_members(members@);
            out.push(0x7Bu8);
            let mut i: usize = 0;
            while i < members.len()
                invariant
                    0 <= i <= members.len(),
                    ms == model_members(members@),
                    ms.len() == members@.len(),
                    forall|k: int|
                        0 <= k < members@.len() ==> #[trigger] ms[k] == (
                            members@[k].0@,
                            members@[k].1@,
                        ),
                    decreases_to!(*value => *members),
                    out@ == seq![0x7Bu8] + join_members(ms.take(i as int)),
                decreases members.len() - i,
            {
                if i > 0 {
                    out.push(0x2Cu8);
                }
                let key = write_string(&members[i].0);
                append(&mut out, &key);
                out.push(0x3Au8);
                assert(decreases_to!(*members => members@));
                assert(decreases_to!(members@ => members@[i as int]));
                assert(decreases_to!(members@[i as int] => members@[i as int].1));
                let part = write_value(&members[i].1);
                append(&mut out, &part);
                assert(ms.take(i + 1).subrange(0, i as int) == ms.take(i as int));
                i += 1;
            }
            assert(ms.take(i as int) == ms);
            out.push(0x7Du8);
        },
    }
    out
}

fn append(out: &mut Vec<u8>, bytes: &[u8])
    ensures
        final(out)@ == old(out)@ + bytes@,
{
    let mut i: usize = 0;
    while i < bytes.len()
        invariant
            0 <= i <= bytes.len(),
            out@ == old(out)@ + bytes@.take(i as int),
        decreases bytes.len() - i,
    {
        out.push(bytes[i]);
        assert(bytes@.take(i + 1) == bytes@.take(i as int).push(bytes@[i as int]));
        i += 1;
    }
    assert(bytes@.take(i as int) == bytes@);
}

/// Decimal digits of a natural number, least significant first; empty for 0.
pub open spec fn low_digits(m: nat) -> Seq<u8>
    decreases m,
{
    if m == 0 {
        Seq::empty()
    } else {
        seq![digit_char((m % 10) as int)] + low_digits(m / 10)
    }
}

proof fn lemma_low_digits_reverse(m: nat)
    requires
        m > 0,
    ensures
        nat_text(m) == low_digits(m).reverse(),
    decreases m,
{
    if m >= 10 {
        lemma_low_digits_reverse(m / 10);
        assert(low_digits(m).reverse() =~= low_digits(m / 10).reverse().push(digit_char((m % 10) as int)));
    } else {
        assert(low_digits(m / 10) == Seq::<u8>::empty());
        assert(low_digits(m).reverse() =~= seq![digit_char(m as int)]);
    }
}

/// Ten to the power `k`.
pub open spec fn ten_pow(k: nat) -> nat
    decreases k,
{
    if k == 0 {
        1
    } else {
        10 * ten_pow((k - 1) as nat)
    }
}

proof fn lemma_low_digits_len(m: nat, k: nat)
    requires
        m < ten_pow(k),
    ensures
        low_digits(m).len() <= k,
    decreases k,
{
    if m > 0 && k > 0 {
        let q = ten_pow((k - 1) as nat);
        assert(m / 10 < q) by (nonlinear_arith)
            requires
                m < 10 * q,
        ;
        lemma_low_digits_len(m / 10, (k - 1) as nat);
    }
}

proof fn lemma_digit_count(m: nat)
    requires
        m <= 0x7fff_ffff_ffff_ffff,
    ensures
        low_digits(m).len() <= 19,
{
    reveal_with_fuel(ten_pow, 20);
    assert(ten_pow(19) == 10_000_000_000_000_000_000);
    lemma_low_digits_len(m, 19);
}

/// Digits of an integer, most significant first, written into `buf`; returns
/// the number of bytes written. Bytes past them are left as they were.
///
/// `i64::MIN` is written as `-i64::MAX`: its magnitude does not fit in an
/// `i64` and is saturated.
pub fn int_digits(n: i64, buf: &mut [u8; INT_BUF]) -> (written: usize)
    ensures
        written <= INT_BUF,
        final(buf)@.len() == INT_BUF,
        final(buf)@.subrange(0, written as int) == int_text(printed_int(n as int)),
        final(buf)@.subrange(written as int, INT_BUF as int) == old(buf)@.subrange(
            written as int,
            INT_BUF as int,
        ),
{
    if n == 0 {
        buf[0] = 0x30u8;
        assert(final(buf)@.subrange(0, 1) =~= seq![0x30u8]);
        assert(final(buf)@.subrange(1, INT_BUF as int) =~= old(buf)@.subrange(1, INT_BUF as int));
        return 1;
    }
    let negative = n < 0;
    // Saturating negation: the magnitude of i64::MIN becomes i64::MAX.
    let mut magnitude: u64 = if negative {
        if n == i64::MIN {
            i64::MAX as u64
        } else {
            (-n) as u64
        }
    } else {
        n as u64
    };
    let ghost abs: nat = magnitude as nat;
    assert(abs > 0);
    proof {
        lemma_digit_count(abs);
        lemma_low_digits_reverse(abs);
    }
    let mut tmp = [0u8; INT_BUF];
    let mut len: usize = 0;
    while magnitude > 0 && len < INT_BUF
        invariant
            len + low_digits(magnitude as nat).len() <= 19,
            tmp@.len() == INT_BUF,
            low_digits(abs) == tmp@.take(len as int) + low_digits(magnitude as nat),
        decreases magnitude,
    {
        let d = magnitude % 10;
        tmp[len] = 0x30u8 + (d as u8);
        assert(low_digits(magnitude as nat) == seq![digit_char(d as int)] + low_digits(
            (magnitude / 10) as nat,
        ));
        assert(tmp@.take(len + 1) =~= tmp@.take(len as int) + seq![digit_char(d as int)]);
        magnitude /= 10;
        len += 1;
    }
    assert(magnitude == 0);
    assert(tmp@.take(len as int) =~= low_digits(abs));
    let ghost digits = low_digits(abs).reverse();
    let ghost sign: int = if negative { 1 } else { 0 };
    let ghost target = int_text(printed_int(n as int));
    assert(target =~= (if negative { seq![0x2Du8] } else { Seq::empty() }) + digits);
    let mut written: usize = 0;
    if negative && written < INT_BUF {
        buf[written] = 0x2Du8;
        written += 1;
    }
    let mut i = len;
    while i > 0 && written < INT_BUF
        invariant
            len == low_digits(abs).len(),
            len <= 19,
            i <= len,
            written == sign + (len - i),
            tmp@.len() == INT_BUF,
            buf@.len() == INT_BUF,
            forall|j: int| 0 <= j < len ==> #[trigger] tmp@[j] == low_digits(abs)[j],
            target.len() == sign + len,
            forall|j: int| 0 <= j < written ==> #[trigger] buf@[j] == target[j],
            forall|j: int| written <= j < INT_BUF ==> #[trigger] buf@[j] == old(buf)@[j],
            sign == 1 ==> target[0] == 0x2Du8,
            forall|j: int| 0 <= j < len ==> #[trigger] target[sign + j] == digits[j],
            digits == low_digits(abs).reverse(),
        decreases i,
    {
        i -= 1;
        buf[written] = tmp[i];
        written += 1;
    }
    assert(final(buf)@.subrange(0, written as int) =~= target);
    assert(final(buf)@.subrange(written as int, INT_BUF as int) =~= old(buf)@.subrange(
        written as int,
        INT_BUF as int,
    ));
    written
}

/// Integers only, so plain decimal: no exponent form and no negative zero.
fn write_int(n: i64) -> (out: Vec<u8>)
    ensures
        out@ == int_text(printed_int(n as int)),
{
    let mut out: Vec<u8> = Vec::new();
    let mut buf = [0u8; INT_BUF];
    let len = int_digits(n, &mut buf);
    let mut i: usize = 0;
    while i < len
        invariant
            len <= INT_BUF,
            buf@.len() == INT_BUF,
            i <= len,
            out@ == buf@.subrange(0, i as int),
        decreases len - i,
    {
        out.push(buf[i]);
        assert(buf@.subrange(0, i + 1) =~= buf@.subrange(0, i as int).push(buf@[i as int]));
        i += 1;
    }
    out
}

/// RFC 8785 string serialization: escape only what must be escaped and copy
/// everything else, multi-byte UTF-8 included. Every byte that needs an
/// escape is ASCII, and no ASCII byte occurs inside a multi-byte sequence, so
/// a byte scan is exact.
fn write_string(s: &[u8]) -> (out: Vec<u8>)
    ensures
        out@ == quoted(s@),
{
    let mut out: Vec<u8> = Vec::new();
    out.push(QUOTE);
    let mut i: usize = 0;
    while i < s.len()
        invariant
            i <= s.len(),
            out@ == seq![QUOTE] + escaped(s@.take(i as int)),
        decreases s.len() - i,
    {
        let b = s[i];
        let ghost before = out@;
        if b == QUOTE {
            out.push(BACKSLASH);
            out.push(QUOTE);
        } else if b == BACKSLASH {
            out.push(BACKSLASH);
            out.push(BACKSLASH);
        } else if b == 0x08 {
            out.push(BACKSLASH);
            out.push(0x62u8);
        } else if b == 0x09 {
            out.push(BACKSLASH);
            out.push(0x74u8);
        } else if b == 0x0A {
            out.push(BACKSLASH);
            out.push(0x6Eu8);
        } else if b == 0x0C {
            out.push(BACKSLASH);
            out.push(0x66u8);
        } else if b == 0x0D {
            out.push(BACKSLASH);
            out.push(0x72u8);
        } else if b < 0x20 {
            out.push(BACKSLASH);
            out.push(0x75u8);
            out.push(0x30u8);
            out.push(0x30u8);
            proof {
                assert(b < 0x20 ==> (b >> 4) < 16 && (b & 0x0F) < 16) by (bit_vector);
            }
            out.push(hex_lower(b >> 4));
            out.push(hex_lower(b & 0x0F));
        } else {
            out.push(b);
        }
        assert(out@ == before + escape_byte(b));
        assert(s@.take(i + 1).drop_last() == s@.take(i as int));
        i += 1;
    }
    assert(s@.take(i as int) == s@);
    out.push(QUOTE);
    out
}

fn hex_lower(nibble: u8) -> (c: u8)
    requires
        nibble < 16,
    ensures
        c == hex_char(nibble),
{
    if nibble < 10 {
        0x30u8 + nibble
    } else {
        0x61u8 + (nibble - 10)
    }
}

} // verus!
