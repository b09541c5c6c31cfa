# enclose_strings

Wrap, escape and extract text enclosed in matching or complementary
delimiters: parentheses, quotes, brackets, XML comments or any custom pair.
Every operation is verified with Verus against a model of text as a sequence
of characters.

## Layout

- `src/lib.rs`: the `SimpleEnclose` trait (wrapping) and `spec_enclose`.
- `src/delimiter.rs`: the `Delimiter` trait for `char`, `&str` and `String`
  tokens, and the matching model (`matches_at`, `first_match_from`).
- `src/escape.rs`: `EscapeStyle`, `escape_delimiter` and its model
  `spec_escape`.
- `src/match_closing.rs`: the closing character of each opening one.
- `src/scan.rs`: `Nesting` and `ScanOptions`, the rules of a scan.
- `src/unwrap.rs`: the `SimpleExtract` trait (extraction), `CapturedSegment`,
  the scan model `scan_from` and the segment model `segments_from`; content is
  copied only where a character is dropped (`law_content_owned_iff_rewritten`).
- `src/round_trip.rs`: enclosing then extracting gives the content back, on
  exactly the contents where it does (single-character delimiters), on a
  stated condition for delimiters of any length, and the balanced round trip
  for wrapped bracketed content.
- `src/idempotence.rs`: escaping is idempotent.
- `src/segmentation.rs`: self-escaping means doubling, identical delimiters
  never nest, and no `Outside` segment is empty.
- `src/text.rs`: conversions between strings and their characters.

Positions taken and returned by `Delimiter` methods are byte indices into the
UTF-8 text, and must fall on character boundaries.
