//! The decisions of a persisted shard owner: which persisted state a writer
//! may reopen, which writer may overwrite it, and when a warm recovery
//! checkpoint may replace a lost owner. Reading and writing the state are the
//! caller's concern.

use crate::checkpoint::{checkpoint_verifies, ShardCheckpointPayload, ShardCheckpointView};
use crate::error::DurabilityError;
use crate::ids::{BrainId, LeaseTerm, PartitionGeneration, ShardId, StreamId, TopologyGeneration};
use crate::shard::{receivers_restored, restorable, DurableShard, DurableShardView};
use vstd::prelude::*;
use vstd::string::*;

verus! {

/// `s` is the shard restored from `p` for `stream_id` and `max_payload`.
pub open spec fn restored_from(s: DurableShardView, p: ShardCheckpointView, stream_id: StreamId, max_payload: u64) -> bool {
    &&& s.brain_id == p.brain_id
    &&& s.shard_id == p.shard_id
    &&& s.topology_generation == p.topology_generation
    &&& s.partition_generation == p.partition_generation
    &&& s.lease_term == p.lease_term
    &&& s.stream_id == stream_id
    &&& s.max_payload == max_payload
    &&& s.committed_tag == p.committed_tag
    &&& s.applied_tag == p.applied_tag
    &&& s.biological_state == p.biological_state
    &&& s.channel_state == p.channel_state
    &&& s.peripheral_state == p.peripheral_state
    &&& s.wal == p.causal_state
    &&& s.receipts == p.receipts
    &&& receivers_restored(s.receivers, p, stream_id, max_payload)
}

/// The persisted state belongs to the requested shard owner.
pub open spec fn same_owner(
    p: ShardCheckpointView,
    brain_id: BrainId,
    shard_id: ShardId,
    topology_generation: TopologyGeneration,
    partition_generation: PartitionGeneration,
) -> bool {
    p.brain_id == brain_id && p.shard_id == shard_id && p.topology_generation == topology_generation
        && p.partition_generation == partition_generation
}

/// Reopens the persisted state of a shard for the owner that asks for it:
/// the identity and generations must match, the writer must hold exactly the
/// persisted term, and the state must restore.
pub fn open_persisted(
    payload: ShardCheckpointPayload,
    brain_id: BrainId,
    shard_id: ShardId,
    topology_generation: TopologyGeneration,
    partition_generation: PartitionGeneration,
    lease_term: LeaseTerm,
    stream_id: StreamId,
    max_payload: u64,
) -> (r: Result<DurableShard, DurabilityError>)
    requires
        payload.wf(),
    ensures
        r is Ok <==> same_owner(payload@, brain_id, shard_id, topology_generation, partition_generation)
            && payload@.lease_term == lease_term && restorable(payload@),
        !same_owner(payload@, brain_id, shard_id, topology_generation, partition_generation) ==> r matches Err(
            DurabilityError::Corrupt(_),
        ),
        same_owner(payload@, brain_id, shard_id, topology_generation, partition_generation)
            && payload@.lease_term != lease_term ==> (r matches Err(
            DurabilityError::StaleTerm { expected, received },
        ) && expected == payload@.lease_term && received == lease_term),
        r matches Ok(s) ==> s.wf() && restored_from(s@, payload@, stream_id, max_payload),
        same_owner(payload@, brain_id, shard_id, topology_generation, partition_generation)
            && payload@.lease_term == lease_term && !checkpoint_verifies(payload@) ==> (r matches Err(e)
            && crate::checkpoint::verify_refusal(e, payload@)),
        same_owner(payload@, brain_id, shard_id, topology_generation, partition_generation)
            && payload@.lease_term == lease_term && checkpoint_verifies(payload@) && !restorable(payload@) ==> (
        r matches Err(DurabilityError::Corrupt(_)) || r matches Err(DurabilityError::SequenceOverflow)),
{
    if payload.brain_id != brain_id || payload.shard_id != shard_id || payload.topology_generation
        != topology_generation || payload.partition_generation != partition_generation {
        return Err(
            DurabilityError::Corrupt(
                String::from_str("durable shard identity or generation does not match the requested owner"),
            ),
        );
    }
    if payload.lease_term != lease_term {
        return Err(DurabilityError::StaleTerm { expected: payload.lease_term, received: lease_term });
    }
    DurableShard::restore_from_checkpoint(payload, stream_id, max_payload)
}

/// A writer of `writer` may replace persisted state of term `existing` only
/// if it is not older.
pub fn admit_writer(existing: LeaseTerm, writer: LeaseTerm) -> (r: Result<(), DurabilityError>)
    ensures
        r is Ok <==> existing.0 <= writer.0,
        r is Err ==> (r matches Err(DurabilityError::StaleTerm { expected, received }) && expected
            == existing && received == writer),
{
    if existing.0 > writer.0 {
        return Err(DurabilityError::StaleTerm { expected: existing, received: writer });
    }
    Ok(())
}

/// Recreates an owner from a warm recovery checkpoint. Where an owner state
/// still exists it must be exactly that checkpoint; the owner is then
/// restored from it.
pub fn restore_from_warm(
    existing: Option<ShardCheckpointPayload>,
    payload: ShardCheckpointPayload,
    stream_id: StreamId,
    max_payload: u64,
) -> (r: Result<DurableShard, DurabilityError>)
    requires
        payload.wf(),
        existing matches Some(e) ==> e.wf(),
    ensures
        r is Ok <==> restorable(payload@) && (existing matches Some(e) ==> e@ == payload@),
        checkpoint_verifies(payload@) && (existing matches Some(e) && checkpoint_verifies(e@) && e@
            != payload@) ==> r matches Err(DurabilityError::Corrupt(_)),
        r matches Ok(s) ==> s.wf() && restored_from(s@, payload@, stream_id, max_payload),
        !checkpoint_verifies(payload@) ==> (r matches Err(e) && crate::checkpoint::verify_refusal(e, payload@)),
        checkpoint_verifies(payload@) && (existing matches Some(e) && !checkpoint_verifies(e@)) ==> (r matches Err(
            err,
        ) && crate::checkpoint::verify_refusal(err, existing->0@)),
{
    match payload.verify() {
        Ok(()) => {},
        Err(e) => {
            return Err(e);
        },
    }
    match existing {
        None => DurableShard::restore_from_checkpoint(payload, stream_id, max_payload),
        Some(e) => {
            match e.verify() {
                Ok(()) => {},
                Err(err) => {
                    return Err(err);
                },
            }
            if !e.same_as(&payload) {
                return Err(
                    DurabilityError::Corrupt(
                        String::from_str("existing owner differs from warm recovery checkpoint"),
                    ),
                );
            }
            DurableShard::restore_from_checkpoint(e, stream_id, max_payload)
        },
    }
}

} // verus!
