# databend_plan

Verified plan-level logic of a query engine, written in Verus.

- `src/kvapi.rs`: the flat string keys of the meta-service: escaping of
  segments, a key builder and a key parser, with the proof that unescaping
  undoes escaping.
- `src/tenant.rs`, `src/stage_ident.rs`: the keys of tenants and stages, with
  the proof that a stage key reads back as the stage it was written from.
- `src/partition.rs`: partitions of a scan and their reshuffle over executors,
  by chunk range or by hash. Proved: by chunk range, the chunks together are
  the partitions; by hash, every partition is in the entry of exactly one
  executor, as often as in the input, and always the same executor for the
  same executors, whatever the other partitions are.
- `src/range_filter.rs`: the domains of column values from block statistics.
- `src/str_map.rs`: a string-keyed map used by the modules above.
- `app/`: serde forms of the partition types, the hash-map form of a
  reshuffle, and the range filter around the library's domain computation.
  `app/range_filter.rs` uses the engine's expression crates, which are not
  dependencies of this crate, so it builds only inside the engine's workspace.
