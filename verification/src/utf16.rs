//! Decoding UTF-8 bytes to UTF-16 code units, the units by which RFC 8785
//! orders object member names.
use vstd::prelude::*;
use vstd::utf8::{valid_utf8, decode_utf8, decode_first_scalar, pop_first_scalar, length_of_first_scalar, is_scalar};

verus! {

/// Number of bytes announced by a leading byte at or above 0xC0.
pub open spec fn lead_width(b0: u8) -> int {
    if b0 >= 0xF0 {
        4
    } else if b0 >= 0xE0 {
        3
    } else {
        2
    }
}

/// Data bits carried by a leading byte at or above 0xC0.
pub open spec fn lead_bits(b0: u8) -> u32 {
    if b0 >= 0xF0 {
        (b0 & 0x07) as u32
    } else if b0 >= 0xE0 {
        (b0 & 0x0F) as u32
    } else {
        (b0 & 0x1F) as u32
    }
}

/// Folds the six data bits of each continuation byte `b[i + k]`, for `k` up
/// to `w - 1`, into `cp`, stopping early at the end of the input.
pub open spec fn gather(b: Seq<u8>, i: int, w: int, k: int, cp: u32) -> u32
    decreases w - k,
{
    if k < w && i + k < b.len() {
        gather(b, i, w, k + 1, (cp << 6) | ((b[i + k] & 0x3F) as u32))
    } else {
        cp
    }
}

/// The UTF-16 code units of a code point below 0x200000: one unit below
/// 0x10000, otherwise a surrogate pair.
pub open spec fn code_units(cp: u32) -> Seq<u16> {
    if cp < 0x10000 {
        seq![cp as u16]
    } else {
        let v = (cp - 0x10000) as u32;
        seq![(0xD800 + (v >> 10)) as u16, (0xDC00 + (v & 0x3FF)) as u16]
    }
}

/// The code units decoded from `b[i..]`. A byte below 0xC0 that does not
/// start a sequence yields itself; a sequence cut short by the end of the
/// input yields the bits gathered so far.
pub open spec fn units_from(b: Seq<u8>, i: int) -> Seq<u16>
    decreases (if i < b.len() { b.len() - i } else { 0 }),
{
    if i < 0 || i >= b.len() {
        Seq::empty()
    } else if b[i] < 0xC0 {
        seq![b[i] as u16] + units_from(b, i + 1)
    } else {
        code_units(gather(b, i, lead_width(b[i]), 1, lead_bits(b[i]))) + units_from(
            b,
            i + lead_width(b[i]),
        )
    }
}

/// The UTF-16 code units of UTF-8 bytes.
pub open spec fn utf16_of(b: Seq<u8>) -> Seq<u16> {
    units_from(b, 0)
}

proof fn lemma_shift_or(cp: u32, z: u32)
    requires
        cp < 0x4000000,
        z < 64,
    ensures
        (cp << 6) | z == cp * 64 + z,
{
    assert(cp < 0x4000000 && z < 64 ==> (cp << 6) | z == cp * 64 + z) by (bit_vector);
}

proof fn lemma_low_six(b: u8)
    ensures
        (b & 0x3F) < 64,
        ((b & 0x3F) as u32) < 64,
{
    assert((b & 0x3F) < 64) by (bit_vector);
}

/// Decode UTF-8 bytes to UTF-16 code units.
///
/// Meant for valid UTF-8. Malformed input is consumed rather than rejected:
/// stray continuation bytes yield themselves and a truncated sequence yields
/// what was read of it.
pub fn utf16_units(bytes: &[u8]) -> (out: Vec<u16>)
    ensures
        out@ == utf16_of(bytes@),
{
    let mut out: Vec<u16> = Vec::new();
    let mut i: usize = 0;
    while i < bytes.len()
        invariant
            out@ + units_from(bytes@, i as int) == utf16_of(bytes@),
        decreases bytes.len() - i,
    {
        let b0 = bytes[i];
        let ghost before = out@;
        assert(before + units_from(bytes@, i as int) == utf16_of(bytes@));
        if b0 < 0x80 {
            out.push(b0 as u16);
            i += 1;
            continue;
        }
        let len: usize = if b0 >= 0xF0 {
            4
        } else if b0 >= 0xE0 {
            3
        } else if b0 >= 0xC0 {
            2
        } else {
            // A stray continuation byte is consumed so that the loop advances.
            out.push(b0 as u16);
            i += 1;
            continue;
        };
        let mut cp: u32 = if len == 2 {
            (b0 & 0x1F) as u32
        } else if len == 3 {
            (b0 & 0x0F) as u32
        } else {
            (b0 & 0x07) as u32
        };
        proof {
            assert((b0 & 0x1F) < 32 && (b0 & 0x0F) < 16 && (b0 & 0x07) < 8) by (bit_vector);
        }
        let mut k: usize = 1;
        while k < len && k < bytes.len() - i
            invariant
                2 <= len <= 4,
                len == lead_width(b0),
                b0 == bytes@[i as int],
                b0 >= 0xC0,
                i < bytes.len(),
                1 <= k <= len,
                cp < (if len == 2 { 32u32 } else if len == 3 { 16u32 } else { 8u32 }) * (
                if k == 1 { 1u32 } else if k == 2 { 64u32 } else if k == 3 { 4096u32 } else { 262144u32 }),
                gather(bytes@, i as int, len as int, k as int, cp) == gather(
                    bytes@,
                    i as int,
                    len as int,
                    1,
                    lead_bits(b0),
                ),
            decreases len - k,
        {
            let c = bytes[i + k];
            proof {
                lemma_low_six(c);
                lemma_shift_or(cp, (c & 0x3F) as u32);
            }
            cp = (cp << 6) | ((c & 0x3F) as u32);
            k += 1;
        }
        assert(cp < 0x200000);
        assert(cp == gather(bytes@, i as int, len as int, 1, lead_bits(b0)));
        let ghost next = if len < bytes.len() - i { i + len } else { bytes.len() as int };
        assert(units_from(bytes@, i + len) == units_from(bytes@, next));
        assert(units_from(bytes@, i as int) == code_units(cp) + units_from(bytes@, next));
        if cp < 0x10000 {
            out.push(cp as u16);
            assert(out@ == before + code_units(cp));
        } else {
            let v = cp - 0x10000;
            proof {
                assert(v < 0x200000 ==> (v >> 10) < 0x800 && (v & 0x3FF) < 0x400) by (bit_vector);
            }
            out.push(0xD800 + ((v >> 10) as u16));
            out.push(0xDC00 + ((v & 0x3FF) as u16));
            assert(out@ == before + code_units(cp));
        }
        assert(out@ + units_from(bytes@, next) == before + units_from(bytes@, i as int));
        // Past the end of the input the loop stops either way.
        if len < bytes.len() - i {
            i += len;
        } else {
            i = bytes.len();
        }
    }
    out
}

/// Length of the longest common prefix of `a` and `b` within their first
/// `n` units.
pub fn common_prefix_len(a: &Vec<u16>, b: &Vec<u16>, n: usize) -> (i: usize)
    requires
        n <= a.len(),
        n <= b.len(),
    ensures
        i <= n,
        a@.take(i as int) == b@.take(i as int),
        i < n ==> a@[i as int] != b@[i as int],
{
    let mut i: usize = 0;
    while i < n
        invariant
            n <= a.len(),
            n <= b.len(),
            i <= n,
            a@.take(i as int) == b@.take(i as int),
        decreases n - i,
    {
        if a[i] != b[i] {
            return i;
        }
        assert(a@.take(i + 1) == a@.take(i as int).push(a@[i as int]));
        assert(b@.take(i + 1) == b@.take(i as int).push(b@[i as int]));
        i += 1;
    }
    i
}

/// The UTF-16 encoding of a character sequence.
pub open spec fn utf16_encode(cs: Seq<char>) -> Seq<u16>
    decreases cs.len(),
{
    if cs.len() == 0 {
        Seq::empty()
    } else {
        code_units(cs[0] as u32) + utf16_encode(cs.drop_first())
    }
}

proof fn lemma_gather_widths(b0: u8, b1: u8, b2: u8, b3: u8)
    ensures
        ((((b0 & 0x0F) as u32) << 6) | ((b1 & 0x3F) as u32)) << 6 | ((b2 & 0x3F) as u32)
            == (((b0 & 0x0F) as u32) << 12) | (((b1 & 0x3F) as u32) << 6) | ((b2 & 0x3F) as u32),
        (((((b0 & 0x07) as u32) << 6) | ((b1 & 0x3F) as u32)) << 6 | ((b2 & 0x3F) as u32)) << 6
            | ((b3 & 0x3F) as u32) == (((b0 & 0x07) as u32) << 18) | (((b1 & 0x3F) as u32) << 12)
            | (((b2 & 0x3F) as u32) << 6) | ((b3 & 0x3F) as u32),
{
    assert(((((b0 & 0x0F) as u32) << 6) | ((b1 & 0x3F) as u32)) << 6 | ((b2 & 0x3F) as u32)
        == (((b0 & 0x0F) as u32) << 12) | (((b1 & 0x3F) as u32) << 6) | ((b2 & 0x3F) as u32))
        by (bit_vector);
    assert((((((b0 & 0x07) as u32) << 6) | ((b1 & 0x3F) as u32)) << 6 | ((b2 & 0x3F) as u32)) << 6
        | ((b3 & 0x3F) as u32) == (((b0 & 0x07) as u32) << 18) | (((b1 & 0x3F) as u32) << 12)
        | (((b2 & 0x3F) as u32) << 6) | ((b3 & 0x3F) as u32)) by (bit_vector);
}

proof fn lemma_units_from_valid(b: Seq<u8>, i: int)
    requires
        0 <= i <= b.len(),
        valid_utf8(b.subrange(i, b.len() as int)),
    ensures
        units_from(b, i) == utf16_encode(decode_utf8(b.subrange(i, b.len() as int))),
    decreases b.len() - i,
{
    let t = b.subrange(i, b.len() as int);
    if i < b.len() {
        let w = length_of_first_scalar(t);
        let rest = pop_first_scalar(t);
        assert(rest =~= b.subrange(i + w, b.len() as int));
        lemma_units_from_valid(b, i + w);
        let cp = decode_first_scalar(t);
        assert(is_scalar(cp)) by {
            let t0 = t[0];
            if w == 1 {
                assert((t0 & 0x7F) as u32 <= 0x7F) by (bit_vector);
            } else if w == 2 {
                let t1 = t[1];
                assert((((t0 & 0x1F) as u32) << 6) | ((t1 & 0x3F) as u32) <= 0x7FF) by (bit_vector);
            } else if w == 3 {
                let t1 = t[1];
                let t2 = t[2];
                assert((((t0 & 0x0F) as u32) << 12) | (((t1 & 0x3F) as u32) << 6) | ((t2 & 0x3F) as u32) <= 0xFFFF) by (bit_vector);
            }
        }
        let c = cp as char;
        assert((c as u32) == cp);
        let cs = decode_utf8(t);
        assert(cs[0] == c);
        assert(cs.drop_first() =~= decode_utf8(rest));
        let b0 = b[i];
        assert(t[0] == b0);
        if w == 1 {
            assert(cp == (b0 & 0x7F) as u32);
            assert(b0 <= 0x7F ==> (b0 & 0x7F) as u32 == b0 as u32 && (b0 as u32) as u16 == b0 as u16) by (bit_vector);
        } else {
            assert(t[1] == b[i + 1]);
            assert(lead_width(b0) == w);
            assert(i + w <= b.len());
            if w == 2 {
                reveal_with_fuel(gather, 3);
                assert(gather(b, i, w, 1, lead_bits(b0)) == cp);
            } else if w == 3 {
                assert(t[2] == b[i + 2]);
                reveal_with_fuel(gather, 4);
                lemma_gather_widths(b0, b[i + 1], b[i + 2], 0);
                assert(gather(b, i, w, 1, lead_bits(b0)) == cp);
            } else {
                assert(t[2] == b[i + 2]);
                assert(t[3] == b[i + 3]);
                reveal_with_fuel(gather, 5);
                lemma_gather_widths(b0, b[i + 1], b[i + 2], b[i + 3]);
                assert(gather(b, i, w, 1, lead_bits(b0)) == cp);
            }
        }
    } else {
        assert(t =~= Seq::<u8>::empty());
    }
}

/// Law: on valid UTF-8, the decoder yields exactly the UTF-16 encoding of
/// the characters that the bytes encode.
pub proof fn law_utf16_of_valid(b: Seq<u8>)
    requires
        valid_utf8(b),
    ensures
        utf16_of(b) == utf16_encode(decode_utf8(b)),
{
    assert(b.subrange(0, b.len() as int) =~= b);
    lemma_units_from_valid(b, 0);
}

proof fn lemma_code_units_char(c: char)
    ensures
        (c as u32) < 0x10000 ==> code_units(c as u32).len() == 1 && !(0xD800 <= code_units(c as u32)[0] <= 0xDFFF) && code_units(c as u32)[0] == c as u32,
        (c as u32) >= 0x10000 ==> code_units(c as u32).len() == 2 && 0xD800 <= code_units(c as u32)[0] < 0xDC00,
{
    let u = c as u32;
    assert(is_scalar(u)) by {
        vstd::utf8::char_is_scalar(c);
    }
    if u >= 0x10000 {
        let v = (u - 0x10000) as u32;
        assert(v < 0x100000 ==> (v >> 10) < 0x400) by (bit_vector);
    }
}

proof fn lemma_code_units_injective(c1: char, c2: char)
    requires
        (c1 as u32) >= 0x10000,
        (c2 as u32) >= 0x10000,
        code_units(c1 as u32) == code_units(c2 as u32),
    ensures
        c1 == c2,
{
    let u1 = c1 as u32;
    let u2 = c2 as u32;
    vstd::utf8::char_is_scalar(c1);
    vstd::utf8::char_is_scalar(c2);
    let v1 = (u1 - 0x10000) as u32;
    let v2 = (u2 - 0x10000) as u32;
    assert(code_units(u1)[0] == code_units(u2)[0]);
    assert(code_units(u1)[1] == code_units(u2)[1]);
    assert(v1 < 0x100000 && v2 < 0x100000 && ((0xD800 + (v1 >> 10)) as u16) == ((0xD800 + (v2 >> 10)) as u16)
        && ((0xDC00 + (v1 & 0x3FF)) as u16) == ((0xDC00 + (v2 & 0x3FF)) as u16) ==> v1 == v2) by (bit_vector);
    vstd::utf8::char_u32_cast(c1, u1);
    vstd::utf8::char_u32_cast(c2, u2);
}

/// The UTF-16 encoding of characters determines the characters.
pub proof fn lemma_utf16_encode_injective(a: Seq<char>, b: Seq<char>)
    requires
        utf16_encode(a) == utf16_encode(b),
    ensures
        a == b,
    decreases a.len(),
{
    if a.len() == 0 || b.len() == 0 {
        if a.len() > 0 {
            lemma_code_units_char(a[0]);
            assert(utf16_encode(a).len() > 0);
        }
        if b.len() > 0 {
            lemma_code_units_char(b[0]);
            assert(utf16_encode(b).len() > 0);
        }
        assert(a =~= b);
    } else {
        let x = code_units(a[0] as u32);
        let y = code_units(b[0] as u32);
        lemma_code_units_char(a[0]);
        lemma_code_units_char(b[0]);
        let ea = utf16_encode(a);
        assert(ea[0] == x[0]);
        assert(utf16_encode(b)[0] == y[0]);
        if (a[0] as u32) < 0x10000 {
            assert((b[0] as u32) < 0x10000);
            vstd::utf8::char_u32_cast(a[0], a[0] as u32);
            vstd::utf8::char_u32_cast(b[0], b[0] as u32);
            assert(a[0] == b[0]);
        } else {
            assert((b[0] as u32) >= 0x10000);
            assert(ea[1] == x[1]);
            assert(utf16_encode(b)[1] == y[1]);
            assert(x =~= y);
            lemma_code_units_injective(a[0], b[0]);
        }
        assert(x =~= y);
        assert(utf16_encode(a.drop_first()) =~= ea.subrange(x.len() as int, ea.len() as int));
        assert(utf16_encode(b.drop_first()) =~= ea.subrange(x.len() as int, ea.len() as int));
        lemma_utf16_encode_injective(a.drop_first(), b.drop_first());
        assert(a =~= seq![a[0]] + a.drop_first());
        assert(b =~= seq![b[0]] + b.drop_first());
    }
}

} // verus!
