# xml-c14n

Canonical XML for Rust, with the canonicalisation rules verified by Verus.

- `src/` is the verified library: the grammar of character references and
  start tags, attribute normalisation and ordering, namespace scoping, and the
  decisions that turn a stream of XML events into canonical output
  (`Canonicalization::handle`). `src/laws.rs` holds the properties proved of
  the library as a whole.
- `app/` reads documents with quick-xml, hands each event to the library and
  writes what it returns (`Canonicalizer`).
- `tests/` holds the examples of the W3C recommendation and unit tests.

Not supported: entity references, default attributes from a DTD,
and document subsets.
