# agentdb

A conflict-aware belief database for agent memory, verified with Verus.

Rows are written to typed tables and never removed. A semantic write asks a
judge how the new row relates to existing rows and records the answer as
first-class state: compatible, support and compressible edges, conflict edges,
and an open conflict record for each new conflict. A binding set selects rows
for a task; its conservative projection is a task-local view in which each
considered row is accepted, suppressed or ambiguous, without changing the
stored rows.

## Layout

- `src/` — the library. Every function is verified except two trusted
  wrappers in `cli/numbers.rs` that call the standard library's integer
  parsing (`<u64 as FromStr>::from_str`, `<i64 as FromStr>::from_str`);
  their contracts are assumed.
  - `schema.rs`, `value.rs`, `row.rs`, `table.rs`: schemas, values, rows and
    tables with their well-formedness invariants.
  - `relation.rs`, `semantic.rs`, `judge.rs`: relation edges, conflict
    records, relations, and the judge interface with a fixed-table judge.
    A judge states, through `judged`, which answers it gives; the semantic
    writes are specified over those answers.
  - `db.rs` and `db/`: the database — writes (`persist_ops.rs`,
    `semantic_write.rs`, `effects.rs`, `judging.rs`), edges and conflict
    records (`relation_ops.rs`), binding sets, queries, traversal,
    projection (`projection_ops.rs`), and the laws that relate operations
    (`laws.rs`).
  - `embedding.rs`: dimension checks and canonical texts for semantic
    indexing.
  - `cli.rs` and `cli/`: parsing of the command line.
- `tests/` — tests of the library.
- `app/` — the command-line program: snapshot files (JSON), the vector index
  over `f32` embeddings, and the execution of commands.
