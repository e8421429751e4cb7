# valve_key_value

Reading and writing Valve's KV3 text format, with the behaviour of every
function stated in Verus contracts and proved.

- `src/parser/kv3_text/tokenizer.rs`: KV3 text to tokens (`tokenize`), against
  the spec function `spec_tokenize`.
- `src/parser/kv3_text/mod.rs`: tokens to values (`parse_kv3_text`), against
  `spec_parse_kv3_text`; a parsed value is plain and can always be written back.
- `src/kv3/kv3_text/serializer.rs`: values to KV3 text (`serialize_object`),
  against `value_text`; `src/serializer.rs` writes whole documents with their
  header; `src/serializer/kv3_text.rs` writes the spaced layout.
- `src/round_trip.rs`: what is written for a value that the text format can
  express reads back as that value.
- `src/kv_map.rs`: tables, held in an `IndexMap` and known to proofs through
  the sequence of their entries.
- `src/rect_sets.rs`: the rectangle sets document built from rectangles.
- `app/main.rs`: the program that reads an SVG image's rectangles and writes
  `output.rect`.

Floating-point numbers are held as their decimal text.
