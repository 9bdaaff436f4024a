# InfraLens

Storage, query and cluster logic for telemetry data (logs, metrics and traces), written in
Rust and verified with Verus. Every function of the library states in its contract what it
returns or changes, and is proved to do so and not to panic.

## Layout

- `src/`: the verified library.
  - `text`, `bytes`, `float`, `hash`, `sha256`, `json`: values that the other modules are built on.
    Floating-point numbers are held as the bits of their IEEE 754 representation.
  - `common`: configuration, records and table schemas.
  - `columnar`: columns and batches.
  - `storage`: write-ahead log, MemTable, SSTables, Bloom filters, zone maps, partitions,
    compaction, and the engine that ties them together.
  - `ingest`: OTLP over JSON and protobuf messages, and the answers to requests.
  - `query`: lexer, grammar and parser, planner, optimizer, expression evaluation and
    operators.
  - `cluster`: consistent hash ring, membership, routing and replication.
  - `rpc`: distributed queries and the answers between nodes.
  - `operator`: the Kubernetes objects of a cluster.
- `tests/`: tests that run the compiled library.
- `app/`: the server and the operator around the library: files, sockets, workers.

## Reading the contracts

Each type has a model of mathematical values (its view), and each function's `ensures` says
over these models what it computes. Public `proof fn` items state laws that span functions,
for instance that a log is replayed as it was written, that a Bloom filter has no false
negatives, that adding a node to the ring moves shards only to that node, or that all records
written to an engine are handed out when it is closed. Each law says on which inputs it
holds: that moving a filter into a scan does not change a result, for instance, is stated for
scans without a limit of their own.

A computation that cannot go on (a number that does not fit, a missing first row, values
without an order) is reported as `QueryError::Abort`; the server panics on it.

An aggregation announces its groups as whole numbers, and gives them out as texts.

What the library has from other crates stands behind small functions marked
`external_body`: checksums (`crc32fast`), calendar fields (`chrono`), floating-point
arithmetic and casts (`arrow`), JSON (`serde_json`), list encoding (`bincode`) and the
concurrent map (`dashmap`). Their contracts are believed, and say what those crates document.
