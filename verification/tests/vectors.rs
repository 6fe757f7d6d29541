use haps::{b64_char, base64url_unpadded, canonicalize, cmp_canonical, hash_value, parse, parse_and_hash, sha256_prefixed, utf16_units, ParseError};
use std::cmp::Ordering;

/// A surrogate-pair key sorts before a BMP key above 0xE000 by UTF-16 code
/// unit, and after it by UTF-8 byte order.
#[test]
fn utf16_ordering_differs_from_byte_ordering() {
    let surrogate = "\u{1F510}".as_bytes();
    let bmp = "\u{FF3A}".as_bytes();
    assert!(cmp_canonical(surrogate, bmp).is_lt(), "UTF-16 order");
    assert!(surrogate > bmp, "UTF-8 byte order is the opposite");
}

/// Non-ASCII values are emitted literally, not as \u escapes.
#[test]
fn non_ascii_is_not_escaped() {
    let value = parse(r#"{"a":"£250.75"}"#).expect("parses");
    assert_eq!(canonicalize(&value), "{\"a\":\"\u{a3}250.75\"}".as_bytes());
}

#[test]
fn duplicate_keys_and_trailing_content_are_rejected() {
    assert_eq!(parse(r#"{"a":1,"a":2}"#), Err(ParseError::DuplicateKey));
    assert_eq!(parse("{} {}"), Err(ParseError::TrailingContent));
}

#[test]
fn protocol_example_hashes_to_the_published_digest() {
    let doc = "{\"amount\":\"250.00\"}";
    assert_eq!(
        parse_and_hash(doc),
        Ok("sha256:w53HIJPJgMdAASIifhbQwH88m3wnzopxMEBiCuvqi0w".to_string())
    );
    let value = parse(doc).expect("parses");
    assert_eq!(
        hash_value(&value),
        "sha256:w53HIJPJgMdAASIifhbQwH88m3wnzopxMEBiCuvqi0w"
    );
    assert_eq!(parse_and_hash("{\"a\":1.5}"), Err(ParseError::NonIntegerNumber));
}

#[test]
fn sha256_prefixed_matches_known_digests() {
    assert_eq!(
        sha256_prefixed(b""),
        "sha256:47DEQpj8HBSa-_TImW-5JCeuQeRkm5NMpJWZG3hSuFU"
    );
    assert_eq!(
        sha256_prefixed(b"abc"),
        "sha256:ungWv48Bz-pBQUDeXa4iI7ADYaOWF3qctBD_YfIAFa0"
    );
}

#[test]
fn base64url_has_no_padding() {
    assert_eq!(base64url_unpadded(b""), "");
    assert_eq!(base64url_unpadded(b"f"), "Zg");
    assert_eq!(base64url_unpadded(b"fo"), "Zm8");
    assert_eq!(base64url_unpadded(b"foo"), "Zm9v");
    assert_eq!(base64url_unpadded(b"foob"), "Zm9vYg");
    assert_eq!(base64url_unpadded(&[0xFB, 0xFF, 0xBF]), "-_-_");
}

#[test]
fn b64_alphabet_is_url_safe() {
    assert_eq!(b64_char(0), Some(b'A'));
    assert_eq!(b64_char(25), Some(b'Z'));
    assert_eq!(b64_char(26), Some(b'a'));
    assert_eq!(b64_char(52), Some(b'0'));
    assert_eq!(b64_char(62), Some(b'-'));
    assert_eq!(b64_char(63), Some(b'_'));
    assert_eq!(b64_char(64), None);
    assert_eq!(b64_char(255), None);
    for six in 0u8..64 {
        let c = b64_char(six).expect("symbol");
        assert!(c.is_ascii_alphanumeric() || c == b'-' || c == b'_');
    }
}

#[test]
fn ordering_examples() {
    assert_eq!(cmp_canonical(b"a", b"b"), Ordering::Less);
    assert_eq!(cmp_canonical(b"ab", b"a"), Ordering::Greater);
    assert_eq!(cmp_canonical(b"", b""), Ordering::Equal);
    assert_eq!(cmp_canonical("\u{e9}".as_bytes(), "\u{e9}".as_bytes()), Ordering::Equal);
    assert_eq!(utf16_units("\u{1F510}".as_bytes()), vec![0xD83D, 0xDD10]);
    assert_eq!(utf16_units("a\u{e9}\u{20ac}".as_bytes()), vec![0x61, 0xE9, 0x20AC]);
    // Malformed input is consumed, not rejected.
    assert_eq!(utf16_units(&[0x80, 0xC3]), vec![0x80, 0x03]);
}

#[test]
fn canonical_form_is_a_fixed_point_on_sample_documents() {
    for doc in [
        r#"{ "z": 1, "a": "ok" }"#,
        "{\"\u{FF3A}\":[1,2,{\"b\":null}],\"\u{1F510}\":\"\\u00e9\\n\",\"e\":{},\"f\":[],\"t\":true,\"n\":-5}",
        r#"[ "\u0001", "\"", "\\", -0, 9007199254740991 ]"#,
    ] {
        let v1 = parse(doc).expect("parses");
        let c1 = canonicalize(&v1);
        let c1_str = std::str::from_utf8(&c1).expect("canonical output is valid UTF-8");
        let v2 = parse(c1_str).expect("canonical form parses");
        assert_eq!(v1, v2, "round trip changed the value");
        assert_eq!(canonicalize(&v2), c1, "not a fixed point");
    }
}

/// The canonical text of a document hashes like the document, whether it is
/// parsed again or its bytes are hashed directly.
#[test]
fn canonical_text_hashes_like_the_document() {
    for doc in [
        r#"{ "z": 1, "a": "ok" }"#,
        "{\"\u{1F510}\":\"\\u00e9\",\"a\":[true, false, null]}",
    ] {
        let expected = parse_and_hash(doc).expect("hashes");
        let text = String::from_utf8(canonicalize(&parse(doc).expect("parses"))).expect("UTF-8");
        assert_eq!(parse_and_hash(&text).expect("canonical text hashes"), expected);
        assert_eq!(sha256_prefixed(text.as_bytes()), expected);
    }
}

/// A document with the features of the edge-case vector: UTF-16 versus UTF-8
/// key order, literal non-ASCII values, escapes, integers, empty containers,
/// booleans and null.
#[test]
fn edge_case_document_is_canonicalized_by_utf16_order() {
    let doc = "{\"\u{FF3A}\":\"\u{65E5}\u{672C}\u{8A9E}\",\"\u{1F510}\":\"na\u{EF}ve \u{1F600}\",\
               \"esc\":\"q\\\" b\\\\ t\\t n\\n\",\"n\":[-7,0,42],\"e\":{},\"a\":[],\
               \"t\":true,\"f\":false,\"z\":null,\"p\":\"\u{A3}250.00\"}";
    let value = parse(doc).expect("parses");
    let bytes = canonicalize(&value);
    let out = std::str::from_utf8(&bytes).expect("canonical output is valid UTF-8");
    assert_eq!(
        out,
        "{\"a\":[],\"e\":{},\"esc\":\"q\\\" b\\\\ t\\t n\\n\",\"f\":false,\"n\":[-7,0,42],\
         \"p\":\"\u{A3}250.00\",\"t\":true,\"z\":null,\"\u{1F510}\":\"na\u{EF}ve \u{1F600}\",\
         \"\u{FF3A}\":\"\u{65E5}\u{672C}\u{8A9E}\"}"
    );
    let pos_surrogate = out.find("\u{1F510}").expect("surrogate key present");
    let pos_bmp = out.find("\u{FF3A}").expect("bmp key present");
    assert!(pos_surrogate < pos_bmp, "surrogate-pair key must precede the BMP key");
}

/// A payment intent whose amount is a JSON fraction is rejected, not hashed.
#[test]
fn fractional_amount_in_an_intent_is_rejected() {
    let doc = r#"{"action":{"type":"payment.transfer","parameters":{"amount":{"currency":"GBP","value":250.75}}}}"#;
    assert_eq!(parse(doc), Err(ParseError::NonIntegerNumber));
    assert_eq!(parse_and_hash(doc), Err(ParseError::NonIntegerNumber));
}

/// Every hash is `sha256:` and 43 base64url characters: 50 in all.
#[test]
fn hashes_have_fifty_characters() {
    for doc in ["null", r#"{"a":[1,2,3]}"#, r#""\u00e9""#] {
        let hash = parse_and_hash(doc).expect("hashes");
        assert_eq!(hash.len(), 50, "{doc}");
        assert!(hash.starts_with("sha256:"));
        assert_eq!(hash, hash_value(&parse(doc).expect("parses")));
    }
    assert_eq!(sha256_prefixed(b"").len(), 50);
}

/// Reordering members and changing insignificant whitespace changes neither
/// the value nor the hash.
#[test]
fn member_order_and_whitespace_do_not_change_the_hash() {
    let a = r#"{ "z": 1, "a": "ok", "m": {"y": [true], "b": null} }"#;
    let b = "{\"m\":{\"b\":null,\"y\":[ true ]},\n\t\"a\":\"ok\",\"z\":1}";
    assert_eq!(parse(a).expect("parses"), parse(b).expect("parses"));
    assert_eq!(parse_and_hash(a).expect("hashes"), parse_and_hash(b).expect("hashes"));
}

/// Strings with quotes, backslashes and control bytes survive a round trip
/// through the canonical form.
#[test]
fn escaped_strings_read_back() {
    let doc = "\"q\\\" b\\\\ \\u0001 \\u001f \\t\\n\\r\\b\\f \u{1F510}\"";
    let value = parse(doc).expect("parses");
    let text = String::from_utf8(canonicalize(&value)).expect("UTF-8");
    assert_eq!(parse(&text).expect("reads back"), value);
}
