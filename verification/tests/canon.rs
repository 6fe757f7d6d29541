use haps::{canonicalize, int_digits, Value, INT_BUF, MAX_SAFE_INT};

fn digits(n: i64) -> Vec<u8> {
    let mut buf = [0u8; INT_BUF];
    let len = int_digits(n, &mut buf);
    buf[..len].to_vec()
}

/// The admissible-range boundaries, the values most likely to break a digit loop.
#[test]
fn admissible_range_boundaries_serialize_exactly() {
    assert_eq!(digits(MAX_SAFE_INT), b"9007199254740991".to_vec());
    assert_eq!(digits(-MAX_SAFE_INT), b"-9007199254740991".to_vec());
    assert_eq!(digits(0), b"0".to_vec());
    assert_eq!(digits(-1), b"-1".to_vec());
    assert_eq!(digits(10), b"10".to_vec());
    assert_eq!(digits(1_000_000), b"1000000".to_vec());
}

/// No exponent form, no plus sign, no negative zero.
#[test]
fn integers_canonicalize_without_exponent_or_negative_zero() {
    assert_eq!(canonicalize(&Value::Int(0)), b"0".to_vec());
    assert_eq!(canonicalize(&Value::Int(1_000_000)), b"1000000".to_vec());
    assert_eq!(
        canonicalize(&Value::Int(MAX_SAFE_INT)),
        b"9007199254740991".to_vec()
    );
}

#[test]
fn string_escaping_matches_rfc8785() {
    let s = |b: &[u8]| canonicalize(&Value::Str(b.to_vec()));
    // short escapes for backspace, tab, newline, form feed, carriage return
    assert_eq!(
        s(&[0x08, 0x09, 0x0A, 0x0C, 0x0D]),
        b"\"\\b\\t\\n\\f\\r\"".to_vec()
    );
    // other control characters use lowercase \u00xx
    assert_eq!(s(&[0x01]), b"\"\\u0001\"".to_vec());
    // non-ASCII passes through literally rather than being escaped
    assert_eq!(s("\u{a3}".as_bytes()), "\"\u{a3}\"".as_bytes().to_vec());
    // quote and backslash
    assert_eq!(s(&[0x22, 0x5C]), b"\"\\\"\\\\\"".to_vec());
}

#[test]
fn int_digits_saturates_the_minimum_and_leaves_the_rest_of_the_buffer() {
    let mut buf = [b'x'; INT_BUF];
    let len = int_digits(i64::MIN, &mut buf);
    assert_eq!(&buf[..len], b"-9223372036854775807");
    assert!(buf[len..].iter().all(|&b| b == b'x'));
    assert_eq!(digits(i64::MAX), b"9223372036854775807".to_vec());
    assert_eq!(digits(-10), b"-10".to_vec());
}

#[test]
fn structures_serialize_compactly_in_member_order() {
    let v = Value::Object(vec![
        (b"a".to_vec(), Value::Array(vec![Value::Null, Value::Bool(true), Value::Bool(false)])),
        (b"b".to_vec(), Value::Object(vec![])),
        (b"c".to_vec(), Value::Array(vec![])),
        (b"d".to_vec(), Value::Int(-7)),
    ]);
    assert_eq!(
        canonicalize(&v),
        b"{\"a\":[null,true,false],\"b\":{},\"c\":[],\"d\":-7}".to_vec()
    );
    // Members are written in the order given; canonicalization does not sort.
    let unsorted = Value::Object(vec![
        (b"z".to_vec(), Value::Int(1)),
        (b"a".to_vec(), Value::Int(2)),
    ]);
    assert_eq!(canonicalize(&unsorted), b"{\"z\":1,\"a\":2}".to_vec());
}

#[test]
fn other_control_characters_use_lowercase_hex() {
    let s = |b: &[u8]| canonicalize(&Value::Str(b.to_vec()));
    assert_eq!(s(&[0x1F, 0x0B, 0x00]), b"\"\\u001f\\u000b\\u0000\"".to_vec());
    assert_eq!(s(b"/"), b"\"/\"".to_vec());
}

#[test]
fn admissibility_checks_every_nested_integer() {
    assert!(Value::Int(MAX_SAFE_INT).is_admissible());
    assert!(!Value::Int(MAX_SAFE_INT + 1).is_admissible());
    assert!(!Value::Int(-MAX_SAFE_INT - 1).is_admissible());
    let nested = Value::Object(vec![(
        b"a".to_vec(),
        Value::Array(vec![Value::Str(b"x".to_vec()), Value::Int(i64::MIN)]),
    )]);
    assert!(!nested.is_admissible());
    let fine = Value::Array(vec![Value::Null, Value::Object(vec![(b"k".to_vec(), Value::Int(-1))])]);
    assert!(fine.is_admissible());
}
