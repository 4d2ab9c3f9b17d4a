# wkb_wkt_converter

Conversion between WKT/EWKT text and WKB/EWKB bytes (little- and big-endian
input, EWKB and ISO dimension encodings, PostGIS SRID conventions), written in
Verus and proved against its specifications.

## Layout

- `src/` — the verified library.
  - `wkt_to_wkb/` — the WKT grammar as spec functions (`grammar.rs`), the
    tokenizer, the cell writer and the recursive-descent parser.
  - `wkb_to_wkt/` — the WKB decoder as spec functions and its reader, and the
    WKT part builder.
  - `model.rs` — geometries (`Shape`), their EWKB encoding and WKT rendering.
  - `header.rs` — reading and rewriting the top-level EWKB SRID, in place or
    by re-encoding.
  - `ewkt.rs` — the `SRID=<n>;` prefix of unvalidated text.
  - `hex.rs`, `text.rs`, `types.rs`, `error.rs` — building blocks. `Fault`
    is an error as the specifications see it: its variant and its message.
  - `wkt_to_wkb/messages.rs` — the message of the error that parsing WKT
    gives, following the grammar to the point where it fails; the WKB
    reader's messages stand in its grammar (`wkb_to_wkt/reader.rs`). Every
    conversion states the exact error it returns.
  - `draft.rs` — the results that still need number text: `WkbDraft`,
    `WktDraft`.
  - `laws.rs`, `parse_laws.rs`, `value_laws.rs`, `render_laws.rs`,
    `reencode_laws.rs`, `srid_laws.rs`, `normalize_laws.rs` — proofs that
    relate the conversions: decoding inverts encoding, parsed WKT decodes back
    with the values given to its numbers, written WKT parses back to its
    geometry (WKB → WKT → WKB), re-encoding and SRID rewrites keep the
    geometry, normalised WKT keeps the values and is a fixed point.
  - `chain_laws.rs` — laws that chain the public conversions: WKT → WKB →
    WKT → WKB gives the same bytes, split-SRID conversion agrees with plain
    conversion, hex output is the hex text of byte output, setting an SRID on
    stripped bytes is setting it on the bytes, normalising WKT is converting
    it to WKB and back.
- `tests/` — the scenarios, run against the compiled library.
- `app/` — the application layer: the decimal text <-> double conversions,
  the API with final strings and bytes, Python bindings and the fuzzing
  harness.

## Numbers

Coordinates are IEEE-754 doubles. The library handles them as 64-bit
patterns and never does floating-point arithmetic: a conversion to WKB
returns a `WkbDraft` whose number cells the caller fills with the values of
their lexemes (`WkbDraft::lexemes`, `WkbDraft::fill`), and a conversion to
WKT returns a `WktDraft` whose coordinates the caller writes as text
(`WktDraft::coords`, `WktDraft::render`). `app/numbers.rs` does both.
