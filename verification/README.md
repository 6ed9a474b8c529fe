# multimerge_pg

An adaptive, parallel sorting engine, stable on every path, for large in-memory batches, and the
decoding of PostgreSQL `COPY ... WITH (FORMAT BINARY)` streams that feed it,
verified with Verus.

- `src/order.rs`: the total order that `Ord` promises, as spec functions and laws.
- `src/sorted.rs`: sortedness and stability (`is_stable_sort_of`), merge lemmas,
  and the uniqueness of a stable sort.
- `src/trend.rs`: rising and falling steps, counted chunk by chunk.
- `src/multimerge.rs`: the engine (`insertion_sort`, the trend check that keeps sorted
  input and reverses strictly falling input, the noise
  probe, the bottom-up and parallel merge sorts, `ordenar_multi_merge_generic`).
- `src/parallel.rs`: the rayon calls, each behind a contract.
- `src/copy_binary.rs`, `src/text.rs`: the binary COPY format and byte-wise text order.
- `src/pipeline.rs`: what each SQL entry point computes.
- `src/laws.rs`: idempotence, sorted input left unchanged, and, for integers, the
  result as the one sorted arrangement; `src/sorted.rs` proves a stable sort unique.
- `app/lib.rs`: the pgrx extension that runs queries and reads files.
