# misosoup

A verified structural index builder for JSON records, in the style of Mison: the record
is read 64 bytes at a time into character bitmaps, escaped quotes are removed, the
characters that stand inside strings are removed, and for each level `k` a colon and a
comma bitmap keep only the structural colons and commas nested at most `k + 1` deep.

Layout of `src/`:

- `bit.rs`: single-word bit operations (lowest set bit, run of ones) and their bit-level
  lemmas.
- `parity.rs`: the parity tests of the `num` crate, behind trusted wrappers.
- `errors.rs`: the error kinds.
- `index_builder/mod.rs`: the `Bitmap` type and the view of words as global positions.
- `index_builder/backend/`: the `Backend` trait and the byte-at-a-time `FallbackBackend`.
- `index_builder/structure.rs`: the model: escaped quotes, strings, and the nesting of
  braces and brackets, read event by event.
- `index_builder/builder.rs`: `IndexBuilder` and its four steps, each proved against the
  model.
- `index_builder/index.rs`: `StructuralIndex`, the result of a build.
- `index_builder/laws.rs`: laws of the index: an index depends only on the record and the
  number of levels, and acceptance does not depend on the number of levels; for records
  whose braces and brackets all close in order, level `k` holds the colons and commas at
  most `k + 1` deep, and each level holds those of the level below.

The record parser (`Parser`) is not included: it rests on a value module and on query
methods of the structural index whose source is not available.
