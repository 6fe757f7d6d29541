//! SHA-256 of canonical bytes, written as `sha256:` and unpadded base64url.
use vstd::prelude::*;
use sha2::{Digest, Sha256};
use crate::canon::{canonical, canonicalize};
use crate::parse::{parse, parse_json, ParseError};
use crate::value::Value;
use vstd::utf8::{encode_utf8, decode_utf8, decode_utf8_encode_utf8};
use crate::value::JsonValue;
use crate::members::sorted_form;
use crate::written::{document_written, law_parse_sorts_written};
use crate::domain::law_parse_output_well_formed;
use crate::roundtrip::{law_canonical_round_trip, law_canonical_is_utf8};

verus! {

/// The SHA-256 digest of a byte sequence.
pub uninterp spec fn sha256(data: Seq<u8>) -> Seq<u8>;

/// SHA-256 by the `sha2` crate.
///
/// Trusted: `Sha256::digest` returns the 32-byte SHA-256 digest of its
/// input, a function of the input alone, named here [`sha256`].
#[verifier::external_body]
fn sha256_digest(data: &[u8]) -> (digest: Vec<u8>)
    ensures
        digest@ == sha256(data@),
        digest@.len() == 32,
{
    Sha256::digest(data).to_vec()
}

/// Appends a character to a string (`String::push`).
///
/// Trusted: the standard library's `String::push` appends the character.
#[verifier::external_body]
fn string_push(s: &mut String, c: char)
    ensures
        final(s)@ == old(s)@.push(c),
{
    s.push(c)
}

/// The base64url symbol for a 6-bit group: `A`-`Z`, `a`-`z`, `0`-`9`, `-`, `_`.
pub open spec fn b64_symbol(six: u8) -> u8 {
    if six < 26 {
        (0x41 + six) as u8
    } else if six < 52 {
        (0x61 + (six - 26)) as u8
    } else if six < 62 {
        (0x30 + (six - 52)) as u8
    } else if six == 62 {
        0x2Du8
    } else {
        0x5Fu8
    }
}

/// Law: the symbols are the URL-safe alphabet of RFC 4648: `A`-`Z` for 0 to
/// 25, `a`-`z` for 26 to 51, `0`-`9` for 52 to 61, then `-` and `_`.
pub proof fn law_b64_alphabet(six: u8)
    ensures
        six < 26 ==> b64_symbol(six) == 0x41 + six,
        26 <= six < 52 ==> b64_symbol(six) == 0x61 + (six - 26),
        52 <= six < 62 ==> b64_symbol(six) == 0x30 + (six - 52),
        six == 62 ==> b64_symbol(six) == 0x2D,
        six == 63 ==> b64_symbol(six) == 0x5F,
{
}

/// Law: distinct 6-bit groups have distinct symbols, so the text can be
/// decoded.
pub proof fn law_b64_symbols_distinct(x: u8, y: u8)
    requires
        x < 64,
        y < 64,
        x != y,
    ensures
        b64_symbol(x) != b64_symbol(y),
{
    law_b64_alphabet(x);
    law_b64_alphabet(y);
}

/// The character for a 6-bit group.
pub open spec fn b64_of(six: u8) -> char {
    b64_symbol(six & 0x3F) as char
}

/// Base64url without padding: three bytes make four characters, a final
/// two bytes three characters, a final byte two characters.
pub open spec fn b64_text(s: Seq<u8>) -> Seq<char>
    decreases s.len(),
{
    if s.len() == 0 {
        Seq::empty()
    } else if s.len() == 1 {
        seq![b64_of(s[0] >> 2), b64_of(s[0] << 4)]
    } else if s.len() == 2 {
        seq![b64_of(s[0] >> 2), b64_of((s[0] << 4) | (s[1] >> 4)), b64_of(s[1] << 2)]
    } else {
        seq![
            b64_of(s[0] >> 2),
            b64_of((s[0] << 4) | (s[1] >> 4)),
            b64_of((s[1] << 2) | (s[2] >> 6)),
            b64_of(s[2]),
        ] + b64_text(s.skip(3))
    }
}

/// Three bytes make four characters; one or two final bytes make two or three.
pub proof fn lemma_b64_text_len(s: Seq<u8>)
    ensures
        b64_text(s).len() == 4 * (s.len() / 3) + (if s.len() % 3 == 0 {
            0
        } else {
            s.len() % 3 + 1
        }),
    decreases s.len(),
{
    if s.len() >= 3 {
        lemma_b64_text_len(s.skip(3));
    }
}

/// The 6-bit group a base64url character stands for.
pub open spec fn b64_group(c: char) -> u8 {
    let n = c as int;
    if 0x41 <= n <= 0x5A {
        (n - 0x41) as u8
    } else if 0x61 <= n <= 0x7A {
        (n - 0x61 + 26) as u8
    } else if 0x30 <= n <= 0x39 {
        (n - 0x30 + 52) as u8
    } else if n == 0x2D {
        62u8
    } else {
        63u8
    }
}

/// Base64url text without padding read back into bytes: four characters
/// make three bytes, a final three make two, a final two make one.
pub open spec fn b64_decode(t: Seq<char>) -> Seq<u8>
    decreases t.len(),
{
    if t.len() < 2 {
        Seq::empty()
    } else {
        let g0 = b64_group(t[0]);
        let g1 = b64_group(t[1]);
        if t.len() == 2 {
            seq![(g0 << 2) | (g1 >> 4)]
        } else {
            let g2 = b64_group(t[2]);
            if t.len() == 3 {
                seq![(g0 << 2) | (g1 >> 4), (g1 << 4) | (g2 >> 2)]
            } else {
                let g3 = b64_group(t[3]);
                seq![(g0 << 2) | (g1 >> 4), (g1 << 4) | (g2 >> 2), (g2 << 6) | g3] + b64_decode(
                    t.skip(4),
                )
            }
        }
    }
}

/// Each character is read back as the group it was written for.
proof fn lemma_b64_group_of(x: u8)
    ensures
        b64_group(b64_of(x)) == x & 0x3F,
{
    let six = x & 0x3F;
    assert((x & 0x3F) < 64) by (bit_vector);
    law_b64_alphabet(six);
    let c = b64_symbol(six);
    assert((c as char) as int == c as int);
}

/// Law: base64url text without padding reads back as the bytes it encodes,
/// so distinct byte strings, and distinct digests, have distinct texts.
pub proof fn law_b64_round_trip(s: Seq<u8>)
    ensures
        b64_decode(b64_text(s)) == s,
    decreases s.len(),
{
    if s.len() == 0 {
    } else {
        let b0 = s[0];
        lemma_b64_group_of(b0 >> 2);
        assert(((b0 >> 2) & 0x3F) == (b0 >> 2)) by (bit_vector);
        if s.len() == 1 {
            lemma_b64_group_of(b0 << 4);
            assert(((((b0 >> 2) & 0x3F) << 2) | ((((b0 << 4) & 0x3F)) >> 4)) == b0) by (bit_vector);
            assert(b64_decode(b64_text(s)) =~= s);
        } else {
            let b1 = s[1];
            lemma_b64_group_of((b0 << 4) | (b1 >> 4));
            assert(((((b0 >> 2) & 0x3F) << 2) | ((((b0 << 4) | (b1 >> 4)) & 0x3F) >> 4)) == b0) by (bit_vector);
            if s.len() == 2 {
                lemma_b64_group_of(b1 << 2);
                assert(((((b0 << 4) | (b1 >> 4)) & 0x3F) << 4) | (((b1 << 2) & 0x3F) >> 2) == b1) by (bit_vector);
                assert(b64_decode(b64_text(s)) =~= s);
            } else {
                let b2 = s[2];
                lemma_b64_group_of((b1 << 2) | (b2 >> 6));
                lemma_b64_group_of(b2);
                assert(((((b0 << 4) | (b1 >> 4)) & 0x3F) << 4) | ((((b1 << 2) | (b2 >> 6)) & 0x3F) >> 2) == b1) by (bit_vector);
                assert(((((b1 << 2) | (b2 >> 6)) & 0x3F) << 6) | (b2 & 0x3F) == b2) by (bit_vector);
                law_b64_round_trip(s.skip(3));
                let head = seq![
                    b64_of(b0 >> 2),
                    b64_of((b0 << 4) | (b1 >> 4)),
                    b64_of((b1 << 2) | (b2 >> 6)),
                    b64_of(b2),
                ];
                let t = b64_text(s);
                assert(t == head + b64_text(s.skip(3)));
                assert(t.skip(4) =~= b64_text(s.skip(3)));
                assert(t[0] == head[0] && t[1] == head[1] && t[2] == head[2] && t[3] == head[3]);
                lemma_b64_text_len(s.skip(3));
                assert(b64_decode(t) =~= seq![b0, b1, b2] + s.skip(3));
                assert(seq![b0, b1, b2] + s.skip(3) =~= s);
            }
        }
    }
}

/// The prefix of a HAPS hash.
pub open spec fn hash_prefix() -> Seq<char> {
    seq!['s', 'h', 'a', '2', '5', '6', ':']
}

/// The HAPS hash text of a byte sequence: `sha256:` and the unpadded
/// base64url of its SHA-256 digest.
pub open spec fn hash_text(data: Seq<u8>) -> Seq<char> {
    hash_prefix() + b64_text(sha256(data))
}

/// Map a 6-bit group to its base64url character. Values above 63 have no
/// symbol and give `None`.
pub fn b64_char(six: u8) -> (r: Option<u8>)
    ensures
        six < 64 ==> r == Some(b64_symbol(six)),
        six >= 64 ==> r is None,
        r matches Some(c) ==> (0x41 <= c <= 0x5A) || (0x61 <= c <= 0x7A) || (0x30 <= c <= 0x39)
            || c == 0x2D || c == 0x5F,
{
    if six < 64 {
        let c = if six < 26 {
            0x41 + six
        } else if six < 52 {
            0x61 + (six - 26)
        } else if six < 62 {
            0x30 + (six - 52)
        } else if six == 62 {
            0x2D
        } else {
            0x5F
        };
        Some(c)
    } else {
        None
    }
}

/// Append the base64url character of a 6-bit group; a value above 63 has
/// none and leaves the string unchanged.
fn push_b64(out: &mut String, six: u8)
    ensures
        six < 64 ==> final(out)@ == old(out)@.push(b64_symbol(six) as char),
        six >= 64 ==> final(out)@ == old(out)@,
{
    if let Some(c) = b64_char(six) {
        string_push(out, c as char);
    }
}

/// Base64url without padding, the encoding of HAPS hashes.
pub fn base64url_unpadded(bytes: &[u8]) -> (out: String)
    ensures
        out@ == b64_text(bytes@),
{
    let mut out = String::new();
    let mut i: usize = 0;
    assert(bytes@.skip(0) =~= bytes@);
    assert(out@ + b64_text(bytes@) =~= b64_text(bytes@));
    while i < bytes.len()
        invariant
            i <= bytes@.len(),
            out@ + b64_text(bytes@.skip(i as int)) == b64_text(bytes@),
        decreases bytes.len() - i,
    {
        let ghost s = bytes@.skip(i as int);
        let ghost before = out@;
        let rest = bytes.len() - i;
        let b0 = bytes[i];
        proof {
            assert(s[0] == b0);
            assert((b0 >> 2) & 0x3F == (b0 >> 2)) by (bit_vector);
            assert((b0 >> 2) < 64) by (bit_vector);
        }
        push_b64(&mut out, (b0 >> 2) & 0x3F);
        if rest >= 3 {
            let b1 = bytes[i + 1];
            let b2 = bytes[i + 2];
            proof {
                assert(s[1] == b1 && s[2] == b2);
                assert(((b0 << 4) | (b1 >> 4)) & 0x3F < 64) by (bit_vector);
                assert(((b1 << 2) | (b2 >> 6)) & 0x3F < 64) by (bit_vector);
                assert(b2 & 0x3F < 64) by (bit_vector);
                assert(((b0 << 4) | (b1 >> 4)) & 0x3F & 0x3F == ((b0 << 4) | (b1 >> 4)) & 0x3F) by (bit_vector);
                assert(((b1 << 2) | (b2 >> 6)) & 0x3F & 0x3F == ((b1 << 2) | (b2 >> 6)) & 0x3F) by (bit_vector);
                assert(b2 & 0x3F & 0x3F == b2 & 0x3F) by (bit_vector);
                assert(s.skip(3) =~= bytes@.skip(i + 3));
            }
            push_b64(&mut out, ((b0 << 4) | (b1 >> 4)) & 0x3F);
            push_b64(&mut out, ((b1 << 2) | (b2 >> 6)) & 0x3F);
            push_b64(&mut out, b2 & 0x3F);
        } else if rest == 2 {
            let b1 = bytes[i + 1];
            proof {
                assert(s[1] == b1);
                assert(((b0 << 4) | (b1 >> 4)) & 0x3F < 64) by (bit_vector);
                assert((b1 << 2) & 0x3F < 64) by (bit_vector);
                assert(((b0 << 4) | (b1 >> 4)) & 0x3F & 0x3F == ((b0 << 4) | (b1 >> 4)) & 0x3F) by (bit_vector);
                assert((b1 << 2) & 0x3F & 0x3F == (b1 << 2) & 0x3F) by (bit_vector);
            }
            push_b64(&mut out, ((b0 << 4) | (b1 >> 4)) & 0x3F);
            push_b64(&mut out, (b1 << 2) & 0x3F);
        } else {
            proof {
                assert((b0 << 4) & 0x3F < 64) by (bit_vector);
                assert((b0 << 4) & 0x3F & 0x3F == (b0 << 4) & 0x3F) by (bit_vector);
            }
            push_b64(&mut out, (b0 << 4) & 0x3F);
        }
        if rest <= 3 {
            i = bytes.len();
            assert(bytes@.skip(i as int) =~= Seq::<u8>::empty());
        } else {
            i += 3;
        }
    }
    out
}

/// `sha256:` followed by the unpadded base64url of a digest.
pub fn prefixed_digest(digest: &[u8]) -> (out: String)
    ensures
        out@ == hash_prefix() + b64_text(digest@),
{
    proof {
        reveal_strlit("sha256:");
    }
    let mut out = "sha256:".to_owned();
    let encoded = base64url_unpadded(digest);
    out.append(encoded.as_str());
    out
}

/// `"sha256:"` followed by the unpadded base64url of SHA-256(`bytes`).
pub fn sha256_prefixed(bytes: &[u8]) -> (out: String)
    ensures
        out@ == hash_text(bytes@),
        out@.len() == 50,
{
    let digest = sha256_digest(bytes);
    proof {
        lemma_b64_text_len(digest@);
    }
    prefixed_digest(digest.as_slice())
}

/// Hash the canonical form of a value. Object members are taken in the
/// order given; the parser produces them sorted.
pub fn hash_value(value: &Value) -> (out: String)
    ensures
        out@ == hash_text(canonical(value@)),
        out@.len() == 50,
{
    let bytes: Vec<u8> = canonicalize(value);
    sha256_prefixed(bytes.as_slice())
}

/// Parse a document of the restricted domain, then hash its canonical form.
pub fn parse_and_hash(input: &str) -> (res: Result<String, ParseError>)
    ensures
        match parse_json(encode_utf8(input@)) {
            Ok(v) => res matches Ok(h) && h@ == hash_text(canonical(v)) && h@.len() == 50,
            Err(e) => res == Err::<String, ParseError>(e),
        },
{
    let value = parse(input)?;
    Ok(hash_value(&value))
}

/// Law: the canonical text of an accepted document parses back to the same
/// value, so [`parse_and_hash`] gives it the document's hash; hashing the
/// bytes of that text with [`sha256_prefixed`] gives the same hash too.
pub proof fn law_canonical_text_hashes_alike(input: Seq<char>)
    ensures
        parse_json(encode_utf8(input)) matches Ok(v) ==> {
            &&& parse_json(encode_utf8(decode_utf8(canonical(v)))) == Ok::<JsonValue, ParseError>(v)
            &&& hash_text(canonical(v)) == hash_text(encode_utf8(decode_utf8(canonical(v))))
        },
{
    law_parse_output_well_formed(encode_utf8(input));
    if let Ok(v) = parse_json(encode_utf8(input)) {
        law_canonical_is_utf8(v);
        decode_utf8_encode_utf8(canonical(v));
        law_canonical_round_trip(v);
    }
}

/// Law: two accepted documents whose values as written differ only in the
/// order of object members, and in whitespace, have equal values, so equal
/// canonical forms and equal hashes from [`parse_and_hash`].
pub proof fn law_member_order_does_not_change_hash(b1: Seq<u8>, b2: Seq<u8>)
    ensures
        match (parse_json(b1), parse_json(b2)) {
            (Ok(v1), Ok(v2)) => {
                &&& document_written(b1) is Ok
                &&& document_written(b2) is Ok
                &&& sorted_form(document_written(b1)->Ok_0) == sorted_form(
                    document_written(b2)->Ok_0,
                ) ==> {
                    &&& v1 == v2
                    &&& canonical(v1) == canonical(v2)
                    &&& hash_text(canonical(v1)) == hash_text(canonical(v2))
                }
            },
            _ => true,
        },
{
    law_parse_sorts_written(b1);
    law_parse_sorts_written(b2);
}

} // verus!
