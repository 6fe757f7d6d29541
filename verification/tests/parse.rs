use haps::{parse, ParseError, Value, MAX_SAFE_INT};

/// A fractional part or exponent is rejected with the specific error, at top
/// level and nested.
#[test]
fn non_integer_numbers_are_rejected() {
    for input in ["1.5", "-0.1", "0.0", "1e3", "1E3", "1e-3"] {
        assert_eq!(parse(input), Err(ParseError::NonIntegerNumber), "{input}");
    }
    assert_eq!(parse(r#"{"a":2.5}"#), Err(ParseError::NonIntegerNumber));
    assert_eq!(parse("[1,2.5]"), Err(ParseError::NonIntegerNumber));
    assert_eq!(
        parse(r#"{"a":{"b":[0.5]}}"#),
        Err(ParseError::NonIntegerNumber)
    );
}

/// Duplicate member names are rejected, not resolved last-wins.
#[test]
fn duplicate_keys_are_rejected() {
    assert_eq!(parse(r#"{"a":1,"a":2}"#), Err(ParseError::DuplicateKey));
    assert_eq!(
        parse(r#"{"a":{"b":1,"b":2}}"#),
        Err(ParseError::DuplicateKey)
    );
}

#[test]
fn safe_integer_range_is_enforced() {
    assert_eq!(parse("9007199254740991"), Ok(Value::Int(MAX_SAFE_INT)));
    assert_eq!(parse("-9007199254740991"), Ok(Value::Int(-MAX_SAFE_INT)));
    assert_eq!(
        parse("9007199254740992"),
        Err(ParseError::IntegerOutOfRange)
    );
    assert_eq!(
        parse("-9007199254740992"),
        Err(ParseError::IntegerOutOfRange)
    );
}

#[test]
fn malformed_input_is_rejected() {
    assert_eq!(parse("{} {}"), Err(ParseError::TrailingContent));
    assert_eq!(parse("01"), Err(ParseError::Syntax));
    assert_eq!(parse(r#"{"a":1,}"#), Err(ParseError::Syntax));
    assert_eq!(parse("\"\u{1}\""), Err(ParseError::Syntax));
    assert_eq!(parse(r#""\ud800""#), Err(ParseError::Syntax));
}

/// Objects come out sorted regardless of input order.
#[test]
fn objects_are_sorted_on_construction() {
    match parse(r#"{"b":1,"a":2}"#).expect("parses") {
        Value::Object(members) => {
            let keys: Vec<&[u8]> = members.iter().map(|(k, _)| k.as_slice()).collect();
            assert_eq!(keys, [b"a".as_slice(), b"b".as_slice()]);
        }
        _ => panic!("expected object"),
    }
}

#[test]
fn negative_zero_is_normalised() {
    assert_eq!(parse("-0"), Ok(Value::Int(0)));
}

/// Escaped surrogate pairs decode to the same bytes as the literal character.
#[test]
fn surrogate_pairs_and_literals_agree() {
    let escaped = parse(r#""\ud83d\udd10""#).expect("escaped parses");
    let literal = parse("\"\u{1F510}\"").expect("literal parses");
    assert_eq!(escaped, literal);
}

#[test]
fn nesting_beyond_the_limit_is_rejected() {
    let ok = format!("{}{}", "[".repeat(65), "]".repeat(65));
    assert!(parse(&ok).is_ok());
    let deep = format!("{}{}", "[".repeat(66), "]".repeat(66));
    assert_eq!(parse(&deep), Err(ParseError::DepthExceeded));
}

#[test]
fn escapes_and_literals_decode() {
    assert_eq!(
        parse(r#""\"\\\/\b\f\n\r\t\u00e9\u0041""#),
        Ok(Value::Str("\"\\/\u{8}\u{c}\n\r\t\u{e9}A".as_bytes().to_vec()))
    );
    assert_eq!(parse(" \t\r\n null \n"), Ok(Value::Null));
    assert_eq!(parse("true"), Ok(Value::Bool(true)));
    assert_eq!(parse("false"), Ok(Value::Bool(false)));
    assert_eq!(parse("nul"), Err(ParseError::Syntax));
    assert_eq!(parse(""), Err(ParseError::Syntax));
    assert_eq!(parse(r#""\x""#), Err(ParseError::Syntax));
    assert_eq!(parse(r#""\udc00""#), Err(ParseError::Syntax));
    assert_eq!(parse(r#""\ud800\u0041""#), Err(ParseError::Syntax));
    assert_eq!(parse(r#""abc"#), Err(ParseError::Syntax));
    assert_eq!(parse("[1 2]"), Err(ParseError::Syntax));
    assert_eq!(parse(r#"{"a" 1}"#), Err(ParseError::Syntax));
    assert_eq!(parse("-"), Err(ParseError::Syntax));
    assert_eq!(parse("+1"), Err(ParseError::Syntax));
}

#[test]
fn members_are_inserted_in_utf16_order() {
    let v = parse("{\"\u{FF3A}\":1,\"\u{1F510}\":2,\"b\":3,\"a\":4}").expect("parses");
    match v {
        Value::Object(members) => {
            let keys: Vec<Vec<u8>> = members.into_iter().map(|(k, _)| k).collect();
            assert_eq!(
                keys,
                vec![
                    b"a".to_vec(),
                    b"b".to_vec(),
                    "\u{1F510}".as_bytes().to_vec(),
                    "\u{FF3A}".as_bytes().to_vec(),
                ]
            );
        }
        _ => panic!("expected object"),
    }
}

/// A clone is a deep copy: equal to the value it copies, and unaffected when
/// that value is dropped.
#[test]
fn clone_is_a_deep_copy() {
    let first = parse(r#"{"b":[1,{"c":"x"}],"a":null,"d":true,"e":-7}"#).expect("parses");
    let copy = first.clone();
    assert_eq!(copy, first);
    drop(first);
    match copy {
        Value::Object(members) => {
            assert_eq!(members.len(), 4);
            assert_eq!(members[0].0, b"a".to_vec());
            assert_eq!(members[0].1, Value::Null);
            assert_eq!(
                members[1].1,
                Value::Array(vec![
                    Value::Int(1),
                    Value::Object(vec![(b"c".to_vec(), Value::Str(b"x".to_vec()))]),
                ])
            );
        }
        other => panic!("expected an object, got {other:?}"),
    }
}

/// Every value the parser accepts passes the admissibility check.
#[test]
fn parsed_values_are_admissible() {
    for input in [
        "9007199254740991",
        "-9007199254740991",
        r#"{"a":[1,-2,{"b":9007199254740991}],"c":"x"}"#,
        "[[[[0]]]]",
        "null",
    ] {
        let value = parse(input).expect("parses");
        assert!(value.is_admissible(), "{input}");
    }
}
