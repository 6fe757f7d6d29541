//! The NDJSON conformance adapter's answer to each request line: the JSON
//! envelope is read with `serde_json`, then the answer is decided. Reading
//! lines and writing the answers is left to the program around the library.
use vstd::prelude::*;
use vstd::utf8::{valid_utf8, encode_utf8, decode_utf8};
use crate::canon::{canonical, canonicalize};
use crate::hash::{hash_text, hash_value};
use crate::parse::{parse, parse_json, ParseError};
use crate::domain::law_parse_output_well_formed;
use crate::roundtrip::law_canonical_is_utf8;

verus! {

/// The adapter protocol's identifier.
pub open spec fn protocol_id() -> Seq<char> {
    "haps-conformance-adapter-v1"@
}

/// The stable rejection code of a parse error.
pub open spec fn error_code(e: ParseError) -> Seq<char> {
    match e {
        ParseError::NonIntegerNumber => "NON_INTEGER_NUMBER"@,
        ParseError::IntegerOutOfRange => "INTEGER_OUT_OF_RANGE"@,
        ParseError::DuplicateKey => "DUPLICATE_KEY"@,
        ParseError::Syntax => "SYNTAX"@,
        ParseError::TrailingContent => "TRAILING_CONTENT"@,
        ParseError::DepthExceeded => "DEPTH_EXCEEDED"@,
    }
}

/// The stable rejection code of a parse error.
pub fn parse_error_code(error: ParseError) -> (code: &'static str)
    ensures
        code@ == error_code(error),
{
    match error {
        ParseError::NonIntegerNumber => "NON_INTEGER_NUMBER",
        ParseError::IntegerOutOfRange => "INTEGER_OUT_OF_RANGE",
        ParseError::DuplicateKey => "DUPLICATE_KEY",
        ParseError::Syntax => "SYNTAX",
        ParseError::TrailingContent => "TRAILING_CONTENT",
        ParseError::DepthExceeded => "DEPTH_EXCEEDED",
    }
}

/// Builds a `String` from bytes (`String::from_utf8`).
///
/// Trusted: the standard library's `String::from_utf8` succeeds exactly when
/// the bytes are valid UTF-8, and then the string has those bytes.
#[verifier::external_body]
fn string_from_utf8(bytes: Vec<u8>) -> (r: Option<String>)
    ensures
        r is Some <==> valid_utf8(bytes@),
        r matches Some(s) ==> encode_utf8(s@) == bytes@,
{
    String::from_utf8(bytes).ok()
}

/// The fields of a request envelope that are JSON strings; a field that is
/// missing or is not a string is `None`.
pub struct Request {
    pub id: Option<String>,
    pub protocol: Option<String>,
    pub operation: Option<String>,
    pub document: Option<String>,
}

/// The answer to a request.
pub enum Reply {
    /// The adapter's capabilities.
    Capabilities { id: String },
    /// The canonical form of the document and its hash.
    Canonicalized { id: String, canonical: String, hash: String },
    /// A rejection with a stable code.
    Rejected { id: String, code: String },
}

/// The model of a reply.
pub enum ReplyView {
    Capabilities { id: Seq<char> },
    Canonicalized { id: Seq<char>, canonical: Seq<char>, hash: Seq<char> },
    Rejected { id: Seq<char>, code: Seq<char> },
}

impl View for Reply {
    type V = ReplyView;

    open spec fn view(&self) -> ReplyView {
        match self {
            Reply::Capabilities { id } => ReplyView::Capabilities { id: id@ },
            Reply::Canonicalized { id, canonical, hash } => ReplyView::Canonicalized {
                id: id@,
                canonical: canonical@,
                hash: hash@,
            },
            Reply::Rejected { id, code } => ReplyView::Rejected { id: id@, code: code@ },
        }
    }
}

impl Reply {
    /// The `status` of an answer: `error` for a rejection, else `ok`.
    pub fn status(&self) -> (status: &'static str)
        ensures
            status@ == (if self is Rejected { "error"@ } else { "ok"@ }),
    {
        match self {
            Reply::Rejected { .. } => "error",
            _ => "ok",
        }
    }
}

/// The operations the adapter announces in its capabilities.
pub fn supported_operations() -> (operations: Vec<String>)
    ensures
        operations@.len() == 1,
        operations@[0]@ == "canonicalize_and_hash"@,
{
    let mut operations = Vec::new();
    operations.push("canonicalize_and_hash".to_owned());
    operations
}

/// The HAPS versions the adapter announces in its capabilities.
pub fn haps_versions() -> (versions: Vec<String>)
    ensures
        versions@.len() == 1,
        versions@[0]@ == "0.4"@,
{
    let mut versions = Vec::new();
    versions.push("0.4".to_owned());
    versions
}

/// The optional text of a field.
pub open spec fn text_of(f: Option<String>) -> Option<Seq<char>> {
    match f {
        Some(s) => Some(s@),
        None => None,
    }
}

/// The text of the `id`, `protocol`, `operation` and `document` fields of
/// a request envelope, in that order; `None` where the field is missing or is
/// not a JSON string.
pub type EnvelopeView = (Option<Seq<char>>, Option<Seq<char>>, Option<Seq<char>>, Option<Seq<char>>);

/// The envelope a request holds; `None` stands for a line that is not JSON.
pub open spec fn envelope_view(request: Option<Request>) -> Option<EnvelopeView> {
    match request {
        None => None,
        Some(r) => Some((text_of(r.id), text_of(r.protocol), text_of(r.operation), text_of(r.document))),
    }
}

/// The envelope of a request line as `serde_json` reads it: `None` where
/// the line is not JSON, else the string fields of the JSON value.
pub uninterp spec fn envelope_of(line: Seq<char>) -> Option<(Option<Seq<char>>, Option<Seq<char>>, Option<Seq<char>>, Option<Seq<char>>)>;

/// The answer of a `canonicalize_and_hash` request for a document.
#[verifier::opaque]
pub open spec fn document_reply(id: Seq<char>, doc: Seq<char>) -> ReplyView {
    match parse_json(encode_utf8(doc)) {
        Ok(v) => ReplyView::Canonicalized {
            id,
            canonical: decode_utf8(canonical(v)),
            hash: hash_text(canonical(v)),
        },
        Err(e) => ReplyView::Rejected { id, code: error_code(e) },
    }
}

/// The answer to a request envelope. A line that is not JSON, a missing or
/// malformed field and an unknown protocol are protocol errors; an operation
/// other than the two known ones is unsupported.
pub open spec fn expected_reply(envelope: Option<EnvelopeView>) -> ReplyView {
    match envelope {
        None => ReplyView::Rejected { id: Seq::empty(), code: "PROTOCOL_ERROR"@ },
        Some((id, protocol, operation, document)) => match id {
            None => ReplyView::Rejected { id: Seq::empty(), code: "PROTOCOL_ERROR"@ },
            Some(id) => if protocol != Some(protocol_id()) {
                ReplyView::Rejected { id, code: "PROTOCOL_ERROR"@ }
            } else {
                match operation {
                    None => ReplyView::Rejected { id, code: "PROTOCOL_ERROR"@ },
                    Some(op) => if op == "capabilities"@ {
                        ReplyView::Capabilities { id }
                    } else if op == "canonicalize_and_hash"@ {
                        match document {
                            None => ReplyView::Rejected { id, code: "PROTOCOL_ERROR"@ },
                            Some(doc) => document_reply(id, doc),
                        }
                    } else {
                        ReplyView::Rejected { id, code: "UNSUPPORTED_OPERATION"@ }
                    },
                }
            },
        },
    }
}

/// Reads the envelope of a request line with `serde_json`.
///
/// Trusted: `serde_json::from_str` reads the line as a JSON value or fails,
/// as a function of the line alone; each field is then the string the value
/// holds under that name, if it holds one. The result is named
/// [`envelope_of`]; what JSON `serde_json` accepts is not stated here.
#[verifier::external_body]
fn decode_request(line: &str) -> (request: Option<Request>)
    ensures
        envelope_view(request) == envelope_of(line@),
{
    let value: serde_json::Value = serde_json::from_str(line).ok()?;
    let field = |name: &str| value.get(name).and_then(serde_json::Value::as_str).map(str::to_owned);
    Some(Request {
        id: field("id"),
        protocol: field("protocol"),
        operation: field("operation"),
        document: field("document"),
    })
}

fn rejected(id: &str, code: &str) -> (reply: Reply)
    ensures
        reply@ == (ReplyView::Rejected { id: id@, code: code@ }),
{
    Reply::Rejected { id: id.to_owned(), code: code.to_owned() }
}

fn same_text(s: &String, literal: &str) -> (r: bool)
    ensures
        r == (s@ == literal@),
{
    let expected = literal.to_owned();
    *s == expected
}

/// Canonicalize and hash a document, or reject it with its code.
fn answer_document(id: &String, document: &String) -> (reply: Reply)
    ensures
        reply@ == document_reply(id@, document@),
{
    reveal(document_reply);
    match parse(document.as_str()) {
        Ok(value) => {
            proof {
                law_parse_output_well_formed(encode_utf8(document@));
                law_canonical_is_utf8(value@);
            }
            let bytes = canonicalize(&value);
            match string_from_utf8(bytes) {
                Some(text) => {
                    proof {
                        vstd::utf8::encode_utf8_decode_utf8(text@);
                    }
                    Reply::Canonicalized {
                        id: id.as_str().to_owned(),
                        canonical: text,
                        hash: hash_value(&value),
                    }
                },
                None => rejected(id.as_str(), "INTERNAL_ERROR"),
            }
        },
        Err(error) => rejected(id.as_str(), parse_error_code(error)),
    }
}

/// Decide the answer to a request of the adapter protocol; `None` stands for
/// a line that is not JSON.
pub fn answer(request: Option<Request>) -> (reply: Reply)
    ensures
        reply@ == expected_reply(envelope_view(request)),
{
    let r = match request {
        None => return Reply::Rejected { id: String::new(), code: "PROTOCOL_ERROR".to_owned() },
        Some(r) => r,
    };
    let id = match &r.id {
        Some(id) => id,
        None => return Reply::Rejected { id: String::new(), code: "PROTOCOL_ERROR".to_owned() },
    };
    let protocol_ok = match &r.protocol {
        Some(p) => same_text(p, "haps-conformance-adapter-v1"),
        None => false,
    };
    if !protocol_ok {
        return rejected(id.as_str(), "PROTOCOL_ERROR");
    }
    let op = match &r.operation {
        Some(op) => op,
        None => return rejected(id.as_str(), "PROTOCOL_ERROR"),
    };
    if same_text(op, "capabilities") {
        Reply::Capabilities { id: id.as_str().to_owned() }
    } else if same_text(op, "canonicalize_and_hash") {
        let document = match &r.document {
            Some(d) => d,
            None => return rejected(id.as_str(), "PROTOCOL_ERROR"),
        };
        answer_document(id, document)
    } else {
        rejected(id.as_str(), "UNSUPPORTED_OPERATION")
    }
}

/// The answer to one request line of the adapter protocol.
pub fn process_request(line: &str) -> (reply: Reply)
    ensures
        reply@ == expected_reply(envelope_of(line@)),
{
    answer(decode_request(line))
}

/// The canonical text and the hash that answer a document come from the
/// document's value.
proof fn lemma_document_reply(id: Seq<char>, doc: Seq<char>)
    ensures
        match document_reply(id, doc) {
            ReplyView::Canonicalized { canonical: text, hash, .. } => {
                &&& hash == hash_text(encode_utf8(text))
                &&& parse_json(encode_utf8(doc)) matches Ok(v)
                &&& encode_utf8(text) == canonical(v)
                &&& parse_json(encode_utf8(text)) == Ok::<crate::value::JsonValue, ParseError>(v)
            },
            _ => true,
        },
{
    reveal(document_reply);
    law_parse_output_well_formed(encode_utf8(doc));
    if let Ok(v) = parse_json(encode_utf8(doc)) {
        law_canonical_is_utf8(v);
        vstd::utf8::decode_utf8_encode_utf8(canonical(v));
        crate::roundtrip::law_canonical_round_trip(v);
    }
}

/// Law: the hash of a `canonicalize_and_hash` answer is the hash of the
/// canonical text in the same answer, which is the canonical form of the
/// document: it parses back to the document's value and is its own
/// canonical form.
pub proof fn law_canonicalized_reply(envelope: Option<EnvelopeView>)
    ensures
        match expected_reply(envelope) {
            ReplyView::Canonicalized { canonical: text, hash, .. } => {
                &&& hash == hash_text(encode_utf8(text))
                &&& envelope matches Some((_, _, _, Some(doc)))
                &&& parse_json(encode_utf8(doc)) matches Ok(v)
                &&& encode_utf8(text) == canonical(v)
                &&& parse_json(encode_utf8(text)) == Ok::<crate::value::JsonValue, ParseError>(v)
            },
            _ => true,
        },
{
    if let Some((Some(id), _, _, Some(doc))) = envelope {
        lemma_document_reply(id, doc);
    }
}

/// The `id` an answer repeats.
pub open spec fn reply_id(reply: ReplyView) -> Seq<char> {
    match reply {
        ReplyView::Capabilities { id } => id,
        ReplyView::Canonicalized { id, .. } => id,
        ReplyView::Rejected { id, .. } => id,
    }
}

/// Law: every answer repeats the `id` of the request, or is empty where the
/// request has none; and an answer that is not a rejection comes only for a
/// request of the adapter's protocol.
pub proof fn law_reply_repeats_id(envelope: Option<EnvelopeView>)
    ensures
        reply_id(expected_reply(envelope)) == (match envelope {
            Some((Some(id), _, _, _)) => id,
            _ => Seq::<char>::empty(),
        }),
        !(expected_reply(envelope) is Rejected) ==> (envelope matches Some((_, Some(protocol), _, _))
            && protocol == protocol_id()),
{
    reveal(document_reply);
}

} // verus!
