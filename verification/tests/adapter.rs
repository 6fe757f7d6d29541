use haps::adapter::{answer, haps_versions, parse_error_code, process_request, supported_operations, Reply, Request};
use haps::ParseError;

const PROTOCOL: &str = "haps-conformance-adapter-v1";

/// A request line, with the operation and the document written as JSON strings.
fn request(operation: &str, document: Option<&str>) -> String {
    let operation = serde_json::to_string(operation).expect("encodes");
    match document {
        Some(document) => {
            let document = serde_json::to_string(document).expect("encodes");
            format!(r#"{{"protocol":"{PROTOCOL}","id":"test","operation":{operation},"document":{document}}}"#)
        }
        None => format!(r#"{{"protocol":"{PROTOCOL}","id":"test","operation":{operation}}}"#),
    }
}

fn code_of(reply: &Reply) -> Option<&str> {
    match reply {
        Reply::Rejected { code, .. } => Some(code.as_str()),
        _ => None,
    }
}

#[test]
fn reports_capabilities() {
    let reply = process_request(&request("capabilities", None));
    assert_eq!(reply.status(), "ok");
    assert_eq!(supported_operations()[0], "canonicalize_and_hash");
    assert_eq!(haps_versions(), vec!["0.4".to_string()]);
    match reply {
        Reply::Capabilities { id } => assert_eq!(id, "test"),
        _ => panic!("expected capabilities"),
    }
}

#[test]
fn canonicalizes_and_hashes() {
    assert_eq!(process_request(&request("canonicalize_and_hash", Some("{}"))).status(), "ok");
    match process_request(&request("canonicalize_and_hash", Some(r#"{ "z": 1, "a": "ok" }"#))) {
        Reply::Canonicalized { id, canonical, hash } => {
            assert_eq!(id, "test");
            assert_eq!(canonical, r#"{"a":"ok","z":1}"#);
            assert!(hash.starts_with("sha256:"));
        }
        _ => panic!("expected a canonical form"),
    }
}

#[test]
fn exposes_stable_rejection_codes() {
    for (document, code) in [
        (r#"{"amount": 1.5}"#, "NON_INTEGER_NUMBER"),
        (r#"{"amount": 1e2}"#, "NON_INTEGER_NUMBER"),
        (r#"{"a": 1, "a": 2}"#, "DUPLICATE_KEY"),
        (r#"{"n": 9007199254740992}"#, "INTEGER_OUT_OF_RANGE"),
    ] {
        let reply = process_request(&request("canonicalize_and_hash", Some(document)));
        assert_eq!(reply.status(), "error");
        assert_eq!(code_of(&reply), Some(code));
    }
}

#[test]
fn rejects_invalid_protocol_requests() {
    let reply = process_request("not json");
    assert_eq!(code_of(&reply), Some("PROTOCOL_ERROR"));
}

/// A missing or malformed field, and an unknown protocol, are protocol
/// errors that repeat the `id` where there is one.
#[test]
fn envelope_lines_with_missing_fields_are_protocol_errors() {
    for (line, expected_id) in [
        (r#"{"protocol":"haps-conformance-adapter-v1","id":"x"}"#, "x"),
        (r#"{"protocol":"haps-conformance-adapter-v1","id":"x","operation":7}"#, "x"),
        (r#"{"protocol":"haps-conformance-adapter-v1","operation":"capabilities"}"#, ""),
        (r#"{"protocol":"other","id":"x","operation":"capabilities"}"#, "x"),
        (r#"{"id":"x","operation":"capabilities"}"#, "x"),
        (r#"[1,2]"#, ""),
        (r#"{"protocol":"haps-conformance-adapter-v1","id":"x","operation":"canonicalize_and_hash","document":{}}"#, "x"),
    ] {
        match process_request(line) {
            Reply::Rejected { id, code } => {
                assert_eq!(id, expected_id, "{line}");
                assert_eq!(code, "PROTOCOL_ERROR", "{line}");
            }
            _ => panic!("expected a rejection for {line}"),
        }
    }
}

#[test]
fn capabilities_repeat_the_request_id() {
    match process_request(r#"{"id":"c-1","operation":"capabilities","protocol":"haps-conformance-adapter-v1"}"#) {
        Reply::Capabilities { id } => assert_eq!(id, "c-1"),
        _ => panic!("expected capabilities"),
    }
}

#[test]
fn envelope_errors_and_unknown_operations() {
    let missing_id = Some(Request {
        id: None,
        protocol: Some(PROTOCOL.to_string()),
        operation: Some("capabilities".to_string()),
        document: None,
    });
    match answer(missing_id) {
        Reply::Rejected { id, code } => {
            assert_eq!(id, "");
            assert_eq!(code, "PROTOCOL_ERROR");
        }
        _ => panic!("expected a rejection"),
    }
    let wrong_protocol = Some(Request {
        id: Some("x".to_string()),
        protocol: Some("other".to_string()),
        operation: Some("capabilities".to_string()),
        document: None,
    });
    match answer(wrong_protocol) {
        Reply::Rejected { id, code } => {
            assert_eq!(id, "x");
            assert_eq!(code, "PROTOCOL_ERROR");
        }
        _ => panic!("expected a rejection"),
    }
    let no_operation = Some(Request {
        id: Some("x".to_string()),
        protocol: Some(PROTOCOL.to_string()),
        operation: None,
        document: None,
    });
    assert_eq!(code_of(&answer(no_operation)), Some("PROTOCOL_ERROR"));
    assert_eq!(code_of(&process_request(&request("frobnicate", None))), Some("UNSUPPORTED_OPERATION"));
    assert_eq!(code_of(&process_request(&request("canonicalize_and_hash", None))), Some("PROTOCOL_ERROR"));
    assert_eq!(
        code_of(&process_request(&request("canonicalize_and_hash", Some("[1] x")))),
        Some("TRAILING_CONTENT")
    );
}

#[test]
fn every_parse_error_has_a_code() {
    assert_eq!(parse_error_code(ParseError::NonIntegerNumber), "NON_INTEGER_NUMBER");
    assert_eq!(parse_error_code(ParseError::IntegerOutOfRange), "INTEGER_OUT_OF_RANGE");
    assert_eq!(parse_error_code(ParseError::DuplicateKey), "DUPLICATE_KEY");
    assert_eq!(parse_error_code(ParseError::Syntax), "SYNTAX");
    assert_eq!(parse_error_code(ParseError::TrailingContent), "TRAILING_CONTENT");
    assert_eq!(parse_error_code(ParseError::DepthExceeded), "DEPTH_EXCEEDED");
}
