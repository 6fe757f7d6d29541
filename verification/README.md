# haps

Restricted JSON parsing, RFC 8785 canonicalization and `sha256:` hashing for
HAPS intent and presentation documents, written in Verus and proved against
mathematical models.

## Layout

- `src/value.rs` — the executable `Value` and its model `JsonValue`; the
  admissible-integer check.
- `src/parse.rs` — the parser: a spec function `parse_json` over bytes that
  defines the accepted language and the value or error of every input, and the
  executable `parse`, proved equal to it.
- `src/utf16.rs`, `src/order.rs` — UTF-16 code units of UTF-8 bytes and the
  canonical order of member names, with its laws (antisymmetry, transitivity,
  equality exactly on equal names).
- `src/canon.rs` — the canonical text of a value (`canonical`) and the
  executable `canonicalize` and `int_digits`.
- `src/domain.rs` — what every parsed value satisfies: admissible integers,
  UTF-8 strings and names, strictly ascending member names, bounded nesting.
- `src/members.rs` — each object holds the members as written, inserted in
  the canonical order, so the order in which they are written does not
  matter.
- `src/written.rs` — the value of a document as written; the parser's
  value is its sorted form, so member order and whitespace do not change the
  value, the canonical form or the hash.
- `src/roundtrip.rs` — the canonical form of a parsed value parses back to the
  same value, so canonicalization is a fixed point; the canonical form is UTF-8.
- `src/hash.rs` — unpadded base64url and `sha256:` hashes; SHA-256 itself is
  the `sha2` crate's, named by the spec function `sha256`.
- `src/adapter.rs` — the answer of the NDJSON conformance adapter to each
  request line; the envelope is read with `serde_json`.
- `app/main.rs` — the adapter program: reads request lines and writes the
  answers as JSON.
- `tests/` — unit tests and sample documents.
