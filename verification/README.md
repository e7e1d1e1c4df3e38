# veldb

An in-memory column database with vector search, written in Rust and verified
with Verus. It parses SQL, runs it over typed columns, keeps a write-ahead log
and snapshots, and feeds replicas.

## Layout

- `src/` is the library. Every function states what it does in its contract and
  Verus proves it.
  - `column`, `table` — typed columns and tables
  - `token`, `parse`, `ast` — the tokens and statements that `sqlparser` reads, as plain
    values
  - `sql`, `plan` — names bound to a schema, statements turned into plans
  - `exec` — the executor: expressions, groups, aggregates, order and limit
  - `like`, `simd`, `float`, `text` — patterns, distances, numbers by their bits, text
  - `codec`, `storage` — the binary format, the log, the snapshot
  - `db` — the database; `db::laws` says what holds of it over its whole life
  - `json`, `http`, `grpc`, `client`, `replication`, `cli`, `size`, `bench` — what the
    programs around the database compute
- `tests/` runs the library.
- `app/` is the programs: the server `veldb`, the client `veldbctl`, the benchmark
  `veldb-bench`. It reads and writes files, listens on sockets and hands the library
  plain values.

## Numbers with a fraction

The library holds a double as the `u64` and a single as the `u32` of its bits.
Comparison is computed on the bits. Arithmetic, conversion and text come from a
`float::Floats` that the caller hands in; `float::Kernel` makes one out of
functions, and `app/kernel.rs` fills it with the arithmetic of the machine. Every
contract is stated over the operations of that `Floats`.

## What is promised

- A confirmed change is in the log, and a restart from the snapshot and the log
  gives back the same tables.
- A log that was cut short or damaged is read up to the damage; a damaged snapshot
  is refused.
- A replica that applies the records of the primary node in order holds the tables
  that the primary node held after them; a gap in the numbers is refused.
- `ORDER BY` is a stable order, and a search by distance is exact.
- A query changes nothing.

The message layer of `grpc` takes and gives plain values; the service that carries
them over the wire is generated from a protobuf description and is not part of
this crate.
