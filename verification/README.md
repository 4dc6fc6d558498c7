# parser_core

A JSON structural parser in the style of cuJSON: compute shaders (WebGPU,
through `wgpu`) find the structural characters of a document and pair its
brackets; a query engine on the host then walks those indexes to answer path
queries such as `$[0].source`.

## Layout

- `src/` — the verified library (Verus):
  - `parser.rs`: the query engine over the structural and pairing indexes,
    with the semantics of every step as spec functions, and laws about key
    lookup, array skipping and query composition;
  - `query.rs`: splitting a query string into segments, with its round-trip
    law;
  - `text.rs`: trimming of Unicode white space and of quotes, decimal `u32`
    parsing, all over UTF-8 bytes;
  - `scan.rs`: exclusive prefix sums and the radix-sort digit histogram;
  - `dispatch.rs`: dispatch splitting, the levels and dispatch order of the
    multi-level GPU scan, and the pipeline's buffer sizes;
  - `bitmap.rs`: padding input bytes to words, decoding set-bit positions;
  - `model.rs`: a model of JSON values laid out in a document with its
    indexes, and the law that a query answers with the trimmed text of the
    primitive at its path.
- `tests/` — tests of the library on concrete inputs.
- `app/` — the program: GPU device, buffers, pipelines and dispatches, and
  `main`. It reads WGSL shaders at run time from the directory named by
  `SHADER_DIR` (default `shaders`).
