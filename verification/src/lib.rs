//! Restricted JSON parsing, RFC 8785 canonicalization and `sha256:` hashing
//! for HAPS intent and presentation documents.

pub mod adapter;
pub mod canon;
pub mod domain;
pub mod hash;
pub mod members;
pub mod order;
pub mod parse;
pub mod roundtrip;
pub mod utf16;
pub mod value;
pub mod written;

pub use canon::{canonicalize, int_digits, INT_BUF};
pub use hash::{b64_char, base64url_unpadded, hash_value, parse_and_hash, sha256_prefixed};
pub use order::cmp_canonical;
pub use parse::{parse, ParseError, MAX_DEPTH};
pub use utf16::utf16_units;
pub use value::{Value, MAX_SAFE_INT};
