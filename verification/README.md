# turbovec

A quantized vector index: vectors are compressed to two to four bits per
coordinate and searched through byte lookup tables.

- `src/` is the core, verified with Verus: storage by slot and by id, masks and
  allowlists, lookup-table scoring with block skipping, top-k selection,
  ranking and the header of stored indexes.
- `app/` is the floating-point front end: it encodes vectors, rotates queries,
  fills tables, turns sums into scores, spreads query batches over threads and
  keeps the caches.
- `tests/` runs the core, on its own and behind a small floating-point front end.

Scores and scales are handled in the core as the bit patterns of single-precision
floats. Each module states its laws as proof functions whose names start with
`law_`.
