# tsip_parser

SIP URI (RFC 3261 §19.1, plus `tel:`), SIP Address (§25.1) and SIP message
framing, written in Verus: every parser and serialiser is an executable
function whose result is pinned down by a specification over bytes, and the
properties that span functions are proved as lemmas.

## Layout

- `src/scan.rs` — byte scanning: search, trimming, scheme detection, port
  digits, ASCII case mapping, pct-decoding.
- `src/text.rs` — UTF-8 facts: when a byte vector built by a parser is text.
- `src/uri.rs` — `Uri`: `uri_spec` (what a parse of a byte range means),
  `Uri::parse` / `Uri::parse_range`, and `render_uri` with `Uri::to_string`.
- `src/address.rs` — `Address`: name-addr and addr-spec forms, `tag` /
  `set_tag`, rendering.
- `src/message.rs` — `Message`: start line, headers with canonical names and
  folding, `Content-Length` and body.
- `src/error.rs` — `ParseError` and its messages.
- `src/roundtrip.rs` — `uri_round_trip`, `address_round_trip`: a parsed value,
  written out and parsed again, is the same value with its URI parameters as
  written (escaped), and from then on writing and parsing is a fixed point;
  `parsed_uri_invariants`, `parsed_address_invariants`,
  `parsed_bare_address_split`: what every parse result holds.
- `src/window.rs` — `parse_range_reads_only_its_range`: parsing a range of an
  input is parsing that slice alone.

Further laws stand beside the functions they relate: `tag_after_set_tag`
(address.rs), `body_within_content_length`, `canonical_name_is_fixed_point`,
`canonical_name_ignores_case` and `parsed_header_names_are_canonical`
(message.rs).
