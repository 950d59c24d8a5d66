# bead_core

A bead-pattern engine: from image bytes and a bead palette it produces a
pattern of palette indices, per-color statistics, a copyable summary and two
PNG renderings (a plain preview and a labelled grid).

The library in `src/` is written in Verus. Each public function carries a
contract over mathematical models (`Seq`, `Map`, `int`), and the proofs cover
the palette validation order, nearest-color matching with its lowest-index tie
rule, greedy color reduction, speckle cleanup by connected regions, counting
and ordering of statistics, and every pixel that the two renderers paint.
Calls into the `image` crate (decoding, resampling, PNG encoding) sit behind
small trusted wrappers whose doc comments say what they claim.

Layout:

- `src/` — the verified library, one module per stage (`image`, `matcher`,
  `quantizer`, `cleanup`, `statistics`, `renderer`, `pipeline`, `palette`,
  `gerstner`) plus shared helpers (`canvas`, `geom`, `text`, `models`,
  `error`).
- `tests/` — the test suite, run against the compiled library.
- `app/` — the command-line front end and the Dart bridge: argument parsing,
  file I/O, JSON, the floating-point color spaces (CIELAB, Oklab) and the
  superpixel clustering.
