# aarnn

Verified durability and placement core for a distributed neuromorphic runtime.

`src/` is the verified library (Verus):

- `ids`, `digest`, `data_plane` — identifiers, 128-bit state digests over SHA-256,
  causal envelopes and the exactly-once stream receiver.
- `wal`, `causal_wal`, `replica` — the hash-chained, term-fenced causal WAL and its
  warm replica.
- `receipts`, `shard`, `shard_laws` — the receipt ledger and the single-writer shard
  commit boundary, with the invariant every reachable shard keeps and the proof that a
  shard's own checkpoint always restores.
- `checkpoint`, `framing`, `peripheral` — sealed shard checkpoints and the immutable
  checkpoint catalogue.
- `warm_document`, `warm_commit`, `owner` — the decisions of the file-backed warm
  replica, the two-file commit and the persisted shard owner.
- `heartbeat` — the orchestrator's handling of a worker heartbeat: refusal of
  unknown workers, activation results, pruning of silent workers, peer maps.
- `placement`, `cluster`, `endpoints`, `scan`, `text`, `resources` — placement
  telemetry, cluster settings, endpoint normalisation and string scanning.

`app/` holds what Verus does not see: file storage with locking, JSON forms of the
persisted types, environment settings and error messages.

## Collections

The library keeps its keyed collections as vectors with a stated invariant
instead of maps:

- `ReceiptLedger` and `CheckpointStore` hold a `Vec` kept in key order, with
  unique keys, as their well-formedness predicates state. The receipt and
  checkpoint keys are structs of this library, and a map ordered by them would
  rest on comparisons that `derive` writes and Verus does not read; over a
  `Vec` the ordering is stated with the key fields' integers and proved.
- `LayerDistribution` and the keyed lists of `OrchestratorState` are keyed by
  node and network ids, which are strings. Verus proves nothing of a
  `HashMap` or `BTreeMap` keyed by `String` beyond the calls being accepted,
  so these are vectors; a `LayerDistribution` keeps node ids in increasing
  order, each once, as its `wf` states, and every operation's contract says
  exactly which entries it keeps, drops or replaces.
