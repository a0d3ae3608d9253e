//! Verified durability core for distributed neuromorphic shards: a fenced,
//! hash-chained causal write-ahead log, warm replicas, receipt ledgers,
//! checkpoint payloads and the single-writer shard commit boundary, together
//! with the pure orchestration helpers of the cluster layer.

pub mod ids;
pub mod digest;
pub mod data_plane;
pub mod error;
pub mod wal;
pub mod causal_wal;
pub mod replica;
pub mod receipts;
pub mod peripheral;
pub mod shard;
pub mod shard_laws;
pub mod framing;
pub mod framing_laws;
pub mod checkpoint;
pub mod warm_document;
pub mod owner;
pub mod placement;
pub mod cluster;
pub mod resources;
pub mod warm_commit;
pub mod heartbeat;
pub mod text;
pub mod scan;
pub mod endpoints;
