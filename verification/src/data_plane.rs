//! Causal events, the envelopes that carry them between shards, and the
//! per-stream reliable receiver that admits envelopes in sequence order.

use crate::ids::{BrainId, EventId, LeaseTerm, LogicalTag, NeuronId, PartitionGeneration, RouteId, SchemaVersion, StreamId, tag_lt};
use vstd::prelude::*;

verus! {

/// Pipeline stage at which a causal event takes effect.
#[derive(Clone, Copy, Debug, PartialEq, Eq, Structural, PartialOrd, Ord, Hash)]
pub enum EventStage {
    SynapticTransition,
    SpikeDecision,
}

/// The one-byte code of a stage, as committed into WAL digests.
pub open spec fn stage_code_spec(stage: EventStage) -> u8 {
    match stage {
        EventStage::SynapticTransition => 0,
        EventStage::SpikeDecision => 1,
    }
}

pub fn stage_code(stage: EventStage) -> (c: u8)
    ensures
        c == stage_code_spec(stage),
{
    match stage {
        EventStage::SynapticTransition => 0,
        EventStage::SpikeDecision => 1,
    }
}

/// The deterministic ordering key of a causal event.
#[derive(Clone, Copy, Debug, PartialEq, Eq, Structural, PartialOrd, Ord, Hash)]
pub struct CanonicalEventKey {
    pub tag: LogicalTag,
    pub stage: EventStage,
    pub source: u64,
    pub target: u64,
    pub ordinal: u64,
}

impl CanonicalEventKey {
    pub fn new(tag: LogicalTag, stage: EventStage, source: u64, target: u64, ordinal: u64) -> (k:
        CanonicalEventKey)
        ensures
            k == (CanonicalEventKey { tag, stage, source, target, ordinal }),
    {
        CanonicalEventKey { tag, stage, source, target, ordinal }
    }
}

/// One causal event with its opaque payload.
#[derive(Clone, Debug)]
pub struct CausalEvent {
    pub id: EventId,
    pub key: CanonicalEventKey,
    pub payload: Vec<u8>,
    pub deferred_from_nonconvergence: bool,
}

/// Mathematical value of a [`CausalEvent`].
pub struct CausalEventView {
    pub id: EventId,
    pub key: CanonicalEventKey,
    pub payload: Seq<u8>,
    pub deferred_from_nonconvergence: bool,
}

impl View for CausalEvent {
    type V = CausalEventView;

    open spec fn view(&self) -> CausalEventView {
        CausalEventView {
            id: self.id,
            key: self.key,
            payload: self.payload@,
            deferred_from_nonconvergence: self.deferred_from_nonconvergence,
        }
    }
}

impl CausalEvent {
    pub fn new(id: EventId, key: CanonicalEventKey, payload: Vec<u8>) -> (e: CausalEvent)
        ensures
            e.id == id,
            e.key == key,
            e.payload@ == payload@,
            !e.deferred_from_nonconvergence,
    {
        CausalEvent { id, key, payload, deferred_from_nonconvergence: false }
    }
}

/// What an envelope carries.
#[derive(Clone, Copy, Debug, PartialEq, Eq, Structural, Hash)]
pub enum EnvelopeKind {
    Event,
    Control,
}

/// A causal event in transit on one producer stream.
#[derive(Clone, Debug)]
pub struct CausalEnvelope {
    pub schema_version: SchemaVersion,
    pub brain: BrainId,
    pub stream: StreamId,
    pub sequence: u64,
    pub lease_term: LeaseTerm,
    pub route: RouteId,
    pub partition_generation: PartitionGeneration,
    pub source: Option<NeuronId>,
    pub target: Option<NeuronId>,
    pub tag: LogicalTag,
    pub event: EventId,
    pub stage: EventStage,
    pub kind: EnvelopeKind,
    pub payload: Vec<u8>,
    pub deferred_from_nonconvergence: bool,
}

/// Why the data plane refused an envelope.
#[derive(Clone, Copy, Debug, PartialEq, Eq, Structural)]
pub enum DataPlaneError {
    UnsupportedSchema,
    UnknownEnvelopeKind,
    WrongBrain,
    WrongStream,
    StaleTerm { expected: LeaseTerm, received: LeaseTerm },
    WrongPartition,
    PayloadTooLarge { bytes: u64, max: u64 },
    SequenceGap { expected: u64, received: u64 },
    TagRegression,
    SequenceExhausted,
}

/// How a receiver classified an admissible envelope.
#[derive(Clone, Copy, Debug, PartialEq, Eq, Structural)]
pub enum ReceiveResult {
    Accepted { sequence: u64 },
    Duplicate { sequence: u64 },
}

/// Admits the envelopes of one producer stream exactly once and in order.
#[derive(Clone, Copy, Debug, PartialEq, Eq, Structural)]
pub struct ReliableReceiver {
    pub brain: BrainId,
    pub stream: StreamId,
    pub lease_term: LeaseTerm,
    pub partition_generation: PartitionGeneration,
    pub max_payload: u64,
    pub next_sequence: u64,
    pub last_tag: Option<LogicalTag>,
}

/// The verdict of [`ReliableReceiver::accept`] on an envelope, as a function of
/// the receiver's state: an error, or the classification.
pub open spec fn receive_verdict(r: ReliableReceiver, env: CausalEnvelope) -> Result<
    ReceiveResult,
    DataPlaneError,
> {
    if env.schema_version.0 != 1 {
        Err(DataPlaneError::UnsupportedSchema)
    } else if env.kind != EnvelopeKind::Event {
        Err(DataPlaneError::UnknownEnvelopeKind)
    } else if env.brain != r.brain {
        Err(DataPlaneError::WrongBrain)
    } else if env.stream != r.stream {
        Err(DataPlaneError::WrongStream)
    } else if env.lease_term != r.lease_term {
        Err(DataPlaneError::StaleTerm { expected: r.lease_term, received: env.lease_term })
    } else if env.partition_generation != r.partition_generation {
        Err(DataPlaneError::WrongPartition)
    } else if env.payload@.len() > r.max_payload {
        Err(
            DataPlaneError::PayloadTooLarge {
                bytes: env.payload@.len() as u64,
                max: r.max_payload,
            },
        )
    } else if env.sequence < r.next_sequence {
        Ok(ReceiveResult::Duplicate { sequence: env.sequence })
    } else if env.sequence > r.next_sequence {
        Err(DataPlaneError::SequenceGap { expected: r.next_sequence, received: env.sequence })
    } else if r.last_tag is Some && tag_lt(env.tag, r.last_tag->0) {
        Err(DataPlaneError::TagRegression)
    } else if r.next_sequence == u64::MAX {
        Err(DataPlaneError::SequenceExhausted)
    } else {
        Ok(ReceiveResult::Accepted { sequence: env.sequence })
    }
}

impl ReliableReceiver {
    /// A receiver that expects the first envelope of `stream`.
    pub fn new(
        brain: BrainId,
        stream: StreamId,
        lease_term: LeaseTerm,
        partition_generation: PartitionGeneration,
        max_payload: u64,
    ) -> (r: ReliableReceiver)
        ensures
            r == (ReliableReceiver {
                brain,
                stream,
                lease_term,
                partition_generation,
                max_payload,
                next_sequence: 0,
                last_tag: None,
            }),
    {
        ReliableReceiver {
            brain,
            stream,
            lease_term,
            partition_generation,
            max_payload,
            next_sequence: 0,
            last_tag: None,
        }
    }

    /// A receiver resumed at recorded progress: `expected` is the next
    /// sequence, and no admitted tag may precede `last_tag`.
    pub fn from_progress(
        brain: BrainId,
        stream: StreamId,
        lease_term: LeaseTerm,
        partition_generation: PartitionGeneration,
        max_payload: u64,
        expected: u64,
        last_tag: Option<LogicalTag>,
    ) -> (r: ReliableReceiver)
        ensures
            r == (ReliableReceiver {
                brain,
                stream,
                lease_term,
                partition_generation,
                max_payload,
                next_sequence: expected,
                last_tag,
            }),
    {
        ReliableReceiver {
            brain,
            stream,
            lease_term,
            partition_generation,
            max_payload,
            next_sequence: expected,
            last_tag,
        }
    }

    /// Classifies one envelope. An accepted envelope advances the cursor and
    /// the last admitted tag; a duplicate or a refusal changes nothing.
    pub fn accept(&mut self, env: &CausalEnvelope) -> (res: Result<ReceiveResult, DataPlaneError>)
        ensures
            res == receive_verdict(*old(self), *env),
            res matches Ok(ReceiveResult::Accepted { .. }) ==> *final(self) == (ReliableReceiver {
                next_sequence: (old(self).next_sequence + 1) as u64,
                last_tag: Some(env.tag),
                ..*old(self)
            }),
            !(res matches Ok(ReceiveResult::Accepted { .. })) ==> *final(self) == *old(self),
    {
        if env.schema_version.0 != 1 {
            return Err(DataPlaneError::UnsupportedSchema);
        }
        match env.kind {
            EnvelopeKind::Event => {},
            _ => {
                return Err(DataPlaneError::UnknownEnvelopeKind);
            },
        }
        if env.brain != self.brain {
            return Err(DataPlaneError::WrongBrain);
        }
        if env.stream != self.stream {
            return Err(DataPlaneError::WrongStream);
        }
        if env.lease_term != self.lease_term {
            return Err(DataPlaneError::StaleTerm { expected: self.lease_term, received: env.lease_term });
        }
        if env.partition_generation != self.partition_generation {
            return Err(DataPlaneError::WrongPartition);
        }
        if env.payload.len() as u64 > self.max_payload {
            return Err(
                DataPlaneError::PayloadTooLarge {
                    bytes: env.payload.len() as u64,
                    max: self.max_payload,
                },
            );
        }
        if env.sequence < self.next_sequence {
            return Ok(ReceiveResult::Duplicate { sequence: env.sequence });
        }
        if env.sequence > self.next_sequence {
            return Err(DataPlaneError::SequenceGap { expected: self.next_sequence, received: env.sequence });
        }
        match self.last_tag {
            Some(last) => {
                if env.tag.precedes(&last) {
                    return Err(DataPlaneError::TagRegression);
                }
            },
            None => {},
        }
        if self.next_sequence == u64::MAX {
            return Err(DataPlaneError::SequenceExhausted);
        }
        self.next_sequence = self.next_sequence + 1;
        self.last_tag = Some(env.tag);
        Ok(ReceiveResult::Accepted { sequence: env.sequence })
    }
}

} // verus!
