//! The error type of the durability layer.

use crate::data_plane::DataPlaneError;
use crate::ids::{EventId, LeaseTerm};
use vstd::prelude::*;

verus! {

/// Why a durability operation failed. Every failure leaves the state that the
/// operation was called on unchanged.
#[derive(Clone, Debug)]
#[allow(inconsistent_fields)]
pub enum DurabilityError {
    /// The caller's term is not the one this log or replica accepts.
    StaleTerm { expected: LeaseTerm, received: LeaseTerm },
    /// A checkpoint with this identity was already published.
    CheckpointAlreadyPublished(EventId),
    /// A published checkpoint's payload no longer matches its manifest digest.
    CheckpointDigestMismatch(EventId),
    /// A shard checkpoint payload does not match its own digest.
    ShardCheckpointDigestMismatch,
    /// No checkpoint with this identity was published.
    MissingCheckpoint(EventId),
    /// A replica was offered a record beyond its next expected sequence.
    ReplicaSequenceGap { expected: u64, received: u64 },
    /// The 64-bit sequence space is exhausted.
    SequenceOverflow,
    /// Storage failed.
    Io(String),
    /// Bytes could not be encoded or decoded.
    Encoding(String),
    /// Durable state is inconsistent; the message says where.
    Corrupt(String),
    /// A checkpoint payload exceeds the size bound.
    PayloadTooLarge { bytes: usize },
    /// The biological transition refused the event.
    Transition(String),
    /// The persisted authority refused the writer.
    Authority(String),
    /// The data plane refused the envelope.
    DataPlane(DataPlaneError),
}

} // verus!
