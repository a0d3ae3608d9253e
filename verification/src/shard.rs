//! The authoritative single-writer durability boundary of one shard.

use crate::causal_wal::{envelope_matches, envelope_replay, is_retermed, lemma_retermed_chain_valid, next_record, reterm_records, CausalWal};
use crate::data_plane::{
    receive_verdict, CanonicalEventKey, CausalEnvelope, CausalEvent, CausalEventView,
    DataPlaneError, EnvelopeKind, ReceiveResult, ReliableReceiver,
};
use crate::error::DurabilityError;
use crate::checkpoint::{
    checkpoint_digest, checkpoint_material, checkpoint_verifies, max_checkpoint_bytes,
    ShardCheckpointPayload, ShardCheckpointView,
};
use crate::digest::{digest_domain, single_domain_digest};
use crate::ids::{
    tag_lt, BrainId, EventId, SchemaVersion, StateDigest, LeaseTerm, LogicalTag, PartitionGeneration, ShardId, StreamId,
    TopologyGeneration,
};
use crate::peripheral::{cursors_valid, PeripheralCursor, PeripheralCursorState};
use crate::receipts::{
    event_receipt, has_event, has_key, inserted_in_order, receipt_with_term, stream_next,
    DurableReceipt, ReceiptLedger, ReceiptOutcome,
};
use crate::replica::{lemma_replica_accepts_chain, WarmReplica};
use crate::shard_laws::{
    lemma_commit_consistent, lemma_consistent_same_core, lemma_new_consistent, lemma_reissue_consistent,
    lemma_restore_consistent, shard_consistent,
};
use crate::wal::{chain_valid, copy_bytes, copy_records, neuron_raw, records_view, WalRecordView};
use vstd::prelude::*;
use vstd::string::*;

verus! {

/// Result of applying one envelope at the commit boundary.
#[derive(Clone, Copy, Debug, PartialEq, Eq, Structural)]
pub enum DurableApplyOutcome {
    Applied { sequence: u64 },
    Duplicate { sequence: u64 },
}

/// The causal event that an envelope carries.
pub open spec fn envelope_event(env: CausalEnvelope) -> CausalEventView {
    CausalEventView {
        id: env.event,
        key: CanonicalEventKey {
            tag: env.tag,
            stage: env.stage,
            source: neuron_raw(env.source),
            target: neuron_raw(env.target),
            ordinal: env.event.0,
        },
        payload: env.payload@,
        deferred_from_nonconvergence: env.deferred_from_nonconvergence,
    }
}

/// Mathematical value of a [`DurableShard`].
pub struct DurableShardView {
    pub brain_id: BrainId,
    pub shard_id: ShardId,
    pub topology_generation: TopologyGeneration,
    pub partition_generation: PartitionGeneration,
    pub lease_term: LeaseTerm,
    pub stream_id: StreamId,
    pub max_payload: u64,
    pub committed_tag: LogicalTag,
    pub applied_tag: LogicalTag,
    pub biological_state: Seq<u8>,
    pub channel_state: Seq<u8>,
    pub peripheral_state: Seq<PeripheralCursor>,
    pub receivers: Seq<ReliableReceiver>,
    pub wal: Seq<WalRecordView>,
    pub receipts: Seq<DurableReceipt>,
}

/// Whether a receiver for `stream` has been admitted.
pub open spec fn has_receiver(rs: Seq<ReliableReceiver>, stream: StreamId) -> bool {
    exists|i: int| 0 <= i < rs.len() && (#[trigger] rs[i]).stream == stream
}

/// The receiver that handles `stream`: the admitted one, or a fresh one for a
/// stream seen for the first time.
pub open spec fn receiver_of(v: DurableShardView, stream: StreamId) -> ReliableReceiver {
    if has_receiver(v.receivers, stream) {
        v.receivers[choose|i: int| 0 <= i < v.receivers.len() && (#[trigger] v.receivers[i]).stream == stream]
    } else {
        ReliableReceiver {
            brain: v.brain_id,
            stream,
            lease_term: v.lease_term,
            partition_generation: v.partition_generation,
            max_payload: v.max_payload,
            next_sequence: 0,
            last_tag: None,
        }
    }
}

/// The receivers after `stream`'s receiver has become `r`.
pub open spec fn receivers_with(rs: Seq<ReliableReceiver>, stream: StreamId, r: ReliableReceiver) -> Seq<
    ReliableReceiver,
> {
    if has_receiver(rs, stream) {
        rs.update(choose|i: int| 0 <= i < rs.len() && (#[trigger] rs[i]).stream == stream, r)
    } else {
        rs.push(r)
    }
}

/// What applying an envelope to a shard in state `v` does, before the
/// biological transition is consulted.
pub enum ApplyVerdict {
    /// The data plane refuses the envelope.
    Refused(DataPlaneError),
    /// The envelope was already applied; nothing changes.
    Duplicate,
    /// Receiver cursors, receipts or logical time disagree with the envelope.
    Corrupt,
    /// The log's sequence space is exhausted.
    Overflow,
    /// The event is staged and the transition decides.
    Stage,
}

pub open spec fn apply_verdict(v: DurableShardView, env: CausalEnvelope) -> ApplyVerdict {
    let receiver = receiver_of(v, env.stream);
    let receipt = event_receipt(
        env.stream,
        env.sequence,
        envelope_event(env),
        env.lease_term,
        env.partition_generation,
    );
    let key_held = has_key(v.receipts, env.stream, env.sequence);
    let receipt_new = !key_held && !has_event(v.receipts, env.event);
    let receipt_dup = key_held && v.receipts.contains(receipt);
    if env.kind != EnvelopeKind::Event {
        ApplyVerdict::Refused(DataPlaneError::UnknownEnvelopeKind)
    } else if receive_verdict(receiver, env) is Err {
        ApplyVerdict::Refused(receive_verdict(receiver, env)->Err_0)
    } else if receive_verdict(receiver, env) matches Ok(ReceiveResult::Duplicate { .. }) {
        if receipt_dup {
            ApplyVerdict::Duplicate
        } else {
            ApplyVerdict::Corrupt
        }
    } else if !receipt_new {
        ApplyVerdict::Corrupt
    } else if tag_lt(env.tag, v.applied_tag) {
        ApplyVerdict::Corrupt
    } else if v.wal.len() >= u64::MAX {
        ApplyVerdict::Overflow
    } else {
        ApplyVerdict::Stage
    }
}

/// The shard after the staged event has been committed with biological state
/// `bio` and channel boundary `channel`.
pub open spec fn committed(
    v: DurableShardView,
    env: CausalEnvelope,
    channel: Seq<u8>,
    bio: Seq<u8>,
    receipts: Seq<DurableReceipt>,
) -> DurableShardView {
    let receiver = receiver_of(v, env.stream);
    DurableShardView {
        receivers: receivers_with(
            v.receivers,
            env.stream,
            ReliableReceiver {
                next_sequence: (receiver.next_sequence + 1) as u64,
                last_tag: Some(env.tag),
                ..receiver
            },
        ),
        receipts,
        wal: v.wal.push(
            next_record(
                v.wal,
                v.lease_term,
                envelope_event(env),
                Some(envelope_replay(env)),
                Some(channel),
            ),
        ),
        biological_state: bio,
        channel_state: channel,
        committed_tag: env.tag,
        applied_tag: env.tag,
        ..v
    }
}

/// The full contract of applying `env` with channel boundary `channel` to a
/// shard in state `v`, ending in `s` with result `res`.
pub open spec fn apply_contract<F, E>(
    v: DurableShardView,
    s: DurableShard,
    env: CausalEnvelope,
    channel: Seq<u8>,
    transition: F,
    res: Result<DurableApplyOutcome, DurabilityError>,
) -> bool where F: FnOnce(&[u8], &CausalEvent) -> Result<Vec<u8>, E> {
    match apply_verdict(v, env) {
        ApplyVerdict::Refused(e) => res matches Err(DurabilityError::DataPlane(x)) && x == e && s@ == v,
        ApplyVerdict::Duplicate => res == Ok::<DurableApplyOutcome, DurabilityError>(
            DurableApplyOutcome::Duplicate { sequence: env.sequence },
        ) && s@ == v,
        ApplyVerdict::Corrupt => res matches Err(DurabilityError::Corrupt(_)) && s@ == v,
        ApplyVerdict::Overflow => res matches Err(DurabilityError::SequenceOverflow) && s@ == v,
        ApplyVerdict::Stage => {
            ||| res matches Err(DurabilityError::Transition(_)) && s@ == v && exists|
                b: &[u8],
                e: &CausalEvent,
                x: E,
            |
                #![trigger transition.ensures((b, e), Err::<Vec<u8>, E>(x))]
                b@ == v.biological_state && e@ == envelope_event(env) && transition.ensures(
                    (b, e),
                    Err::<Vec<u8>, E>(x),
                )
            ||| res == Ok::<DurableApplyOutcome, DurabilityError>(
                DurableApplyOutcome::Applied { sequence: env.sequence },
            ) && exists|b: &[u8], e: &CausalEvent, out: Vec<u8>, receipts: Seq<DurableReceipt>|
                #![trigger transition.ensures((b, e), Ok::<Vec<u8>, E>(out)), inserted_in_order(v.receipts, event_receipt(env.stream, env.sequence, envelope_event(env), env.lease_term, env.partition_generation), receipts)]
                b@ == v.biological_state && e@ == envelope_event(env) && transition.ensures(
                    (b, e),
                    Ok::<Vec<u8>, E>(out),
                ) && inserted_in_order(
                    v.receipts,
                    event_receipt(
                        env.stream,
                        env.sequence,
                        envelope_event(env),
                        env.lease_term,
                        env.partition_generation,
                    ),
                    receipts,
                ) && s@ == committed(v, env, channel, out@, receipts)
        },
    }
}

/// A stream without receipts resumes at zero.
pub proof fn lemma_stream_next_absent(rs: Seq<DurableReceipt>, stream: StreamId)
    requires
        !has_stream(rs, stream),
    ensures
        stream_next(rs, stream) == 0,
    decreases rs.len(),
{
    if rs.len() > 0 {
        assert(!has_stream(rs.drop_last(), stream)) by {
            if has_stream(rs.drop_last(), stream) {
                let w = choose|w: int| 0 <= w < rs.drop_last().len() && (#[trigger] rs.drop_last()[w]).stream_id == stream;
                assert(rs[w].stream_id == stream);
            }
        }
        assert(rs[rs.len() - 1].stream_id != stream);
        lemma_stream_next_absent(rs.drop_last(), stream);
    }
}

/// The receiver of `stream` restored from a checkpoint.
pub open spec fn restored_receiver(p: ShardCheckpointView, stream: StreamId, max_payload: u64) -> ReliableReceiver {
    ReliableReceiver {
        brain: p.brain_id,
        stream,
        lease_term: p.lease_term,
        partition_generation: p.partition_generation,
        max_payload,
        next_sequence: stream_next(p.receipts, stream),
        last_tag: Some(p.committed_tag),
    }
}

/// The receivers restored from checkpoint `p`: one per stream that has
/// receipts, plus `stream_id`, each resumed one past its highest receipt.
#[verifier::opaque]
pub open spec fn receivers_restored(
    rs: Seq<ReliableReceiver>,
    p: ShardCheckpointView,
    stream_id: StreamId,
    max_payload: u64,
) -> bool {
    &&& forall|st: StreamId| has_receiver(rs, st) <==> (has_stream(p.receipts, st) || st == stream_id)
    &&& forall|k: int| 0 <= k < rs.len() ==> #[trigger] rs[k] == restored_receiver(p, rs[k].stream, max_payload)
    &&& forall|a: int, b: int| 0 <= a < b < rs.len() ==> (#[trigger] rs[a]).stream != (#[trigger] rs[b]).stream
}

/// Restored receivers are bound to the checkpoint's brain, term, generation
/// and the given payload bound, one per stream.
pub proof fn lemma_restored_receivers_wf(
    rs: Seq<ReliableReceiver>,
    p: ShardCheckpointView,
    stream_id: StreamId,
    max_payload: u64,
)
    requires
        receivers_restored(rs, p, stream_id, max_payload),
    ensures
        forall|i: int|
            0 <= i < rs.len() ==> {
                &&& (#[trigger] rs[i]).brain == p.brain_id
                &&& rs[i].lease_term == p.lease_term
                &&& rs[i].partition_generation == p.partition_generation
                &&& rs[i].max_payload == max_payload
            },
        forall|a: int, b: int| 0 <= a < b < rs.len() ==> (#[trigger] rs[a]).stream != (#[trigger] rs[b]).stream,
{
    reveal(receivers_restored);
    assert forall|i: int| 0 <= i < rs.len() implies {
        &&& (#[trigger] rs[i]).brain == p.brain_id
        &&& rs[i].lease_term == p.lease_term
        &&& rs[i].partition_generation == p.partition_generation
        &&& rs[i].max_payload == max_payload
    } by {
        assert(rs[i] == restored_receiver(p, rs[i].stream, max_payload));
    }
}

fn has_stream_receiver(rs: &Vec<ReliableReceiver>, stream: StreamId) -> (r: bool)
    ensures
        r == has_receiver(rs@, stream),
{
    let mut k: usize = 0;
    while k < rs.len()
        invariant
            k <= rs@.len(),
            forall|m: int| 0 <= m < k ==> (#[trigger] rs@[m]).stream != stream,
        decreases rs@.len() - k,
    {
        if rs[k].stream == stream {
            return true;
        }
        k = k + 1;
    }
    false
}

fn opt_u64_equal(a: Option<u64>, b: Option<u64>) -> (r: bool)
    ensures
        r == (a == b),
{
    match (a, b) {
        (Some(x), Some(y)) => x == y,
        (None, None) => true,
        _ => false,
    }
}

/// The receiver of `stream` resumed under `term` at the progress recorded by
/// the shard's receipts.
pub open spec fn resumed_receiver(v: DurableShardView, stream: StreamId, term: LeaseTerm, next: u64) -> ReliableReceiver {
    ReliableReceiver {
        brain: v.brain_id,
        stream,
        lease_term: term,
        partition_generation: v.partition_generation,
        max_payload: v.max_payload,
        next_sequence: next,
        last_tag: Some(v.committed_tag),
    }
}

/// The receivers of a shard promoted to `term`: each admitted stream resumes
/// one past its highest receipt, and the shard's own stream is admitted.
pub open spec fn reissued_receivers(v: DurableShardView, term: LeaseTerm) -> Seq<ReliableReceiver> {
    let base = v.receivers.map_values(
        |r: ReliableReceiver| resumed_receiver(v, r.stream, term, stream_next(v.receipts, r.stream)),
    );
    if has_receiver(v.receivers, v.stream_id) {
        base
    } else {
        base.push(resumed_receiver(v, v.stream_id, term, 0))
    }
}

/// The unsealed checkpoint of a shard's current boundary.
pub open spec fn shard_snapshot(v: DurableShardView) -> ShardCheckpointView {
    ShardCheckpointView {
        schema_version: SchemaVersion(1),
        brain_id: v.brain_id,
        shard_id: v.shard_id,
        topology_generation: v.topology_generation,
        partition_generation: v.partition_generation,
        lease_term: v.lease_term,
        committed_tag: v.committed_tag,
        applied_tag: v.applied_tag,
        durable_wal_sequence: if v.wal.len() == 0 {
            None
        } else {
            Some((v.wal.len() - 1) as u64)
        },
        biological_state: v.biological_state,
        causal_state: v.wal,
        channel_state: v.channel_state,
        peripheral_state: v.peripheral_state,
        receipts: v.receipts,
        state_digest: StateDigest { high: 0, low: 0 },
    }
}

/// The first record carrying event `e` sits at index `j`.
pub open spec fn first_with_event(rs: Seq<WalRecordView>, e: EventId, j: int) -> bool {
    0 <= j < rs.len() && rs[j].event == e && forall|k: int| 0 <= k < j ==> (#[trigger] rs[k]).event != e
}

/// A receipt is backed by the first WAL record of its event: same term and
/// generation as the checkpoint, same tag, and the digest of that record's
/// payload.
pub open spec fn receipt_backed(
    r: DurableReceipt,
    rs: Seq<WalRecordView>,
    term: LeaseTerm,
    generation: PartitionGeneration,
) -> bool {
    &&& r.lease_term == term
    &&& r.partition_generation == generation
    &&& exists|j: int|
        #![trigger rs[j]]
        first_with_event(rs, r.event_id, j) && rs[j].tag == r.tag && single_domain_digest(
            "causal-payload".spec_bytes(),
            rs[j].payload,
        ) == r.payload_digest
}

/// Receipts and WAL records of a checkpoint correspond one to one by event.
pub open spec fn receipts_match(p: ShardCheckpointView) -> bool {
    &&& p.receipts.len() == p.causal_state.len()
    &&& forall|i: int|
        0 <= i < p.receipts.len() ==> receipt_backed(
            #[trigger] p.receipts[i],
            p.causal_state,
            p.lease_term,
            p.partition_generation,
        )
    &&& forall|j: int| 0 <= j < p.causal_state.len() ==> has_event(p.receipts, (#[trigger] p.causal_state[j]).event)
}

/// The sequence a receipt at index `i` must carry: one past its predecessor
/// on the same stream, or zero for a stream's first receipt.
pub open spec fn expected_sequence(rs: Seq<DurableReceipt>, i: int) -> int {
    if i > 0 && rs[i - 1].stream_id == rs[i].stream_id {
        rs[i - 1].sequence + 1
    } else {
        0
    }
}

/// Every stream's receipts run from zero without gaps.
pub open spec fn streams_contiguous(rs: Seq<DurableReceipt>) -> bool {
    forall|i: int| 0 <= i < rs.len() ==> (#[trigger] rs[i]).sequence < u64::MAX && rs[i].sequence
        == expected_sequence(rs, i)
}

/// Whether some receipt belongs to `stream`.
pub open spec fn has_stream(rs: Seq<DurableReceipt>, stream: StreamId) -> bool {
    exists|i: int| 0 <= i < rs.len() && (#[trigger] rs[i]).stream_id == stream
}

/// Whether a checkpoint can be restored: it verifies, its WAL is an intact
/// chain ending at its recorded sequence, its receipts match the WAL, and
/// every stream's receipts are contiguous.
pub open spec fn restorable(p: ShardCheckpointView) -> bool {
    &&& checkpoint_verifies(p)
    &&& chain_valid(p.causal_state, p.lease_term)
    &&& p.durable_wal_sequence == (if p.causal_state.len() == 0 {
        None
    } else {
        Some((p.causal_state.len() - 1) as u64)
    })
    &&& receipts_match(p)
    &&& streams_contiguous(p.receipts)
}

/// The single-writer durability boundary of one shard: receiver cursors, the
/// causal WAL, its warm replica, receipts and the opaque biological, channel
/// and peripheral state advance together or not at all.
#[derive(Clone, Debug)]
pub struct DurableShard {
    brain_id: BrainId,
    shard_id: ShardId,
    topology_generation: TopologyGeneration,
    partition_generation: PartitionGeneration,
    lease_term: LeaseTerm,
    stream_id: StreamId,
    max_payload: u64,
    committed_tag: LogicalTag,
    applied_tag: LogicalTag,
    biological_state: Vec<u8>,
    channel_state: Vec<u8>,
    peripheral_state: PeripheralCursorState,
    receivers: Vec<ReliableReceiver>,
    wal: CausalWal,
    warm_replica: WarmReplica,
    receipts: ReceiptLedger,
}

impl View for DurableShard {
    type V = DurableShardView;

    closed spec fn view(&self) -> DurableShardView {
        DurableShardView {
            brain_id: self.brain_id,
            shard_id: self.shard_id,
            topology_generation: self.topology_generation,
            partition_generation: self.partition_generation,
            lease_term: self.lease_term,
            stream_id: self.stream_id,
            max_payload: self.max_payload,
            committed_tag: self.committed_tag,
            applied_tag: self.applied_tag,
            biological_state: self.biological_state@,
            channel_state: self.channel_state@,
            peripheral_state: self.peripheral_state@,
            receivers: self.receivers@,
            wal: self.wal@.records,
            receipts: self.receipts@,
        }
    }
}

/// Receivers are bound to the shard's brain, term, generation and payload
/// bound, and each stream has at most one.
pub open spec fn receivers_wf(v: DurableShardView) -> bool {
    &&& forall|i: int|
        0 <= i < v.receivers.len() ==> {
            &&& (#[trigger] v.receivers[i]).brain == v.brain_id
            &&& v.receivers[i].lease_term == v.lease_term
            &&& v.receivers[i].partition_generation == v.partition_generation
            &&& v.receivers[i].max_payload == v.max_payload
        }
    &&& forall|i: int, j: int|
        0 <= i < j < v.receivers.len() ==> (#[trigger] v.receivers[i]).stream != (
        #[trigger] v.receivers[j]).stream
}

impl DurableShard {
    /// The log and its warm replica hold the same intact chain under the
    /// shard's term, receipts are well formed, and receivers are bound to
    /// this shard.
    pub closed spec fn wf(&self) -> bool {
        &&& self.wal.wf()
        &&& self.wal@.active_term == self.lease_term
        &&& chain_valid(self.wal@.records, self.lease_term)
        &&& self.warm_replica.wf()
        &&& self.warm_replica@.term == self.lease_term
        &&& self.warm_replica@.records == self.wal@.records
        &&& self.receipts.wf()
        &&& receivers_wf(self@)
        &&& cursors_valid(self.peripheral_state@)
        &&& shard_consistent(self@)
    }

    /// A shard at the origin of logical time with no committed event.
    pub fn new(
        brain_id: BrainId,
        shard_id: ShardId,
        topology_generation: TopologyGeneration,
        partition_generation: PartitionGeneration,
        lease_term: LeaseTerm,
        stream_id: StreamId,
        max_payload: u64,
        biological_state: Vec<u8>,
        channel_state: Vec<u8>,
    ) -> (s: DurableShard)
        ensures
            s.wf(),
            s@ == (DurableShardView {
                brain_id,
                shard_id,
                topology_generation,
                partition_generation,
                lease_term,
                stream_id,
                max_payload,
                committed_tag: LogicalTag { tick: 0, microstep: 0 },
                applied_tag: LogicalTag { tick: 0, microstep: 0 },
                biological_state: biological_state@,
                channel_state: channel_state@,
                peripheral_state: Seq::empty(),
                receivers: seq![
                    ReliableReceiver {
                        brain: brain_id,
                        stream: stream_id,
                        lease_term,
                        partition_generation,
                        max_payload,
                        next_sequence: 0,
                        last_tag: None,
                    },
                ],
                wal: Seq::empty(),
                receipts: Seq::empty(),
            }),
    {
        let mut receivers: Vec<ReliableReceiver> = Vec::new();
        receivers.push(
            ReliableReceiver::new(brain_id, stream_id, lease_term, partition_generation, max_payload),
        );
        let wal = CausalWal::new(lease_term);
        assert(chain_valid(wal@.records, lease_term)) by {
            reveal(chain_valid);
        }
        let s = DurableShard {
            brain_id,
            shard_id,
            topology_generation,
            partition_generation,
            lease_term,
            stream_id,
            max_payload,
            committed_tag: LogicalTag::zero(),
            applied_tag: LogicalTag::zero(),
            biological_state,
            channel_state,
            peripheral_state: PeripheralCursorState::empty(),
            receivers,
            wal,
            warm_replica: WarmReplica::new(lease_term),
            receipts: ReceiptLedger::new(),
        };
        assert(s@.receivers =~= seq![
            ReliableReceiver {
                brain: brain_id,
                stream: stream_id,
                lease_term,
                partition_generation,
                max_payload,
                next_sequence: 0,
                last_tag: None,
            },
        ]);
        proof {
            lemma_new_consistent(s@);
        }
        s
    }

    /// Applies one envelope with the shard's current channel boundary.
    pub fn apply_once<F, E>(&mut self, envelope: &CausalEnvelope, transition: F) -> (res: Result<
        DurableApplyOutcome,
        DurabilityError,
    >) where F: FnOnce(&[u8], &CausalEvent) -> Result<Vec<u8>, E>, E: std::fmt::Display
        requires
            old(self).wf(),
            forall|s: &[u8], e: &CausalEvent| #[trigger] transition.requires((s, e)),
        ensures
            final(self).wf(),
            apply_contract(old(self)@, *final(self), *envelope, old(self)@.channel_state, transition, res),
    {
        let channel_state = copy_bytes(self.channel_state.as_slice());
        self.apply_once_with_channel_state(envelope, channel_state, transition)
    }

    /// Validates and stages one envelope, then commits receiver cursor,
    /// receipt, WAL record, warm replica, biological state and channel
    /// boundary as one step. Nothing changes unless every step succeeds; a
    /// duplicate is answered without consulting the transition.
    pub fn apply_once_with_channel_state<F, E>(
        &mut self,
        envelope: &CausalEnvelope,
        channel_state: Vec<u8>,
        transition: F,
    ) -> (res: Result<DurableApplyOutcome, DurabilityError>) where
        F: FnOnce(&[u8], &CausalEvent) -> Result<Vec<u8>, E>,
        E: std::fmt::Display,

        requires
            old(self).wf(),
            forall|s: &[u8], e: &CausalEvent| #[trigger] transition.requires((s, e)),
        ensures
            final(self).wf(),
            apply_contract(old(self)@, *final(self), *envelope, channel_state@, transition, res),
    {
        let ghost v = self@;
        let ghost verdict = apply_verdict(v, *envelope);
        match envelope.kind {
            EnvelopeKind::Event => {},
            _ => {
                return Err(DurabilityError::DataPlane(DataPlaneError::UnknownEnvelopeKind));
            },
        }
        let found = self.find_receiver(envelope.stream);
        let mut receiver = match found {
            Some(i) => self.receivers[i],
            None => ReliableReceiver::new(
                self.brain_id,
                envelope.stream,
                self.lease_term,
                self.partition_generation,
                self.max_payload,
            ),
        };
        proof {
            if found is Some {
                let i = found->0 as int;
                let c = choose|j: int| 0 <= j < v.receivers.len() && (#[trigger] v.receivers[j]).stream == envelope.stream;
                assert(v.receivers[i].stream == envelope.stream);
                assert(has_receiver(v.receivers, envelope.stream));
                assert(c == i);
            }
            assert(receiver == receiver_of(v, envelope.stream));
        }
        let ghost receiver0 = receiver;
        let receive_result = match receiver.accept(envelope) {
            Ok(r) => r,
            Err(e) => {
                return Err(DurabilityError::DataPlane(e));
            },
        };
        let mut event = CausalEvent::new(
            envelope.event,
            CanonicalEventKey::new(
                envelope.tag,
                envelope.stage,
                match envelope.source {
                    Some(id) => id.0,
                    None => 0,
                },
                match envelope.target {
                    Some(id) => id.0,
                    None => 0,
                },
                envelope.event.0,
            ),
            copy_bytes(envelope.payload.as_slice()),
        );
        event.deferred_from_nonconvergence = envelope.deferred_from_nonconvergence;
        assert(event@ == envelope_event(*envelope));
        let mut receipts = self.receipts.copy();
        let receipt_result = match receipts.record_event(
            envelope.stream,
            envelope.sequence,
            &event,
            envelope.lease_term,
            envelope.partition_generation,
        ) {
            Ok(r) => r,
            Err(e) => {
                return Err(e);
            },
        };
        match receive_result {
            ReceiveResult::Duplicate { .. } => {
                match receipt_result {
                    ReceiptOutcome::Duplicate => {
                        return Ok(DurableApplyOutcome::Duplicate { sequence: envelope.sequence });
                    },
                    ReceiptOutcome::New => {
                        return Err(
                            DurabilityError::Corrupt(
                                String::from_str(
                                    "receiver and durable receipt state disagree for a duplicate",
                                ),
                            ),
                        );
                    },
                }
            },
            ReceiveResult::Accepted { .. } => {},
        }
        match receipt_result {
            ReceiptOutcome::New => {},
            ReceiptOutcome::Duplicate => {
                return Err(
                    DurabilityError::Corrupt(
                        String::from_str("new receiver sequence already has a durable receipt"),
                    ),
                );
            },
        }
        if event.key.tag.precedes(&self.applied_tag) {
            return Err(
                DurabilityError::Corrupt(
                    String::from_str("causal event tag moves behind the applied tag"),
                ),
            );
        }
        let mut wal = self.wal.copy();
        proof {
            if found is Some {
                assert(receiver0 == v.receivers[found->0 as int]);
            }
            assert(receiver0.lease_term == self.lease_term);
            assert(envelope.lease_term == self.lease_term);
            assert(envelope_matches(*envelope, self.lease_term, event@));
            assert(envelope.kind == EnvelopeKind::Event);
            assert(receive_verdict(receiver0, *envelope) is Ok);
            assert(receive_verdict(receiver0, *envelope) matches Ok(ReceiveResult::Accepted { .. }));
            assert(!has_key(v.receipts, envelope.stream, envelope.sequence));
            assert(!has_event(v.receipts, envelope.event));
            assert(!tag_lt(envelope.tag, v.applied_tag));
            assert(verdict is Overflow || verdict is Stage);
            self.wal.lemma_len_bound();
        }
        let record = match wal.append_envelope(
            self.lease_term,
            &event,
            envelope,
            channel_state.as_slice(),
        ) {
            Ok(r) => r,
            Err(e) => {
                return Err(e);
            },
        };
        let mut warm_replica = self.warm_replica.copy();
        proof {
            reveal(chain_valid);
        }
        match warm_replica.apply(record) {
            Ok(()) => {},
            Err(e) => {
                return Err(e);
            },
        }
        let biological_state = match transition(self.biological_state.as_slice(), &event) {
            Ok(b) => b,
            Err(error) => {
                return Err(DurabilityError::Transition(error.to_string()));
            },
        };
        match found {
            Some(i) => {
                self.receivers.set(i, receiver);
            },
            None => {
                self.receivers.push(receiver);
            },
        }
        let ghost bio = biological_state@;
        let ghost staged = receipts@;
        let ghost channel = channel_state@;
        self.receipts = receipts;
        self.wal = wal;
        self.warm_replica = warm_replica;
        self.biological_state = biological_state;
        self.channel_state = channel_state;
        self.committed_tag = envelope.tag;
        self.applied_tag = envelope.tag;
        proof {
            assert(verdict is Stage);
            lemma_commit_consistent(v, *envelope, channel, bio, staged);
            assert(self@ == committed(v, *envelope, channel, bio, staged));
        }
        Ok(DurableApplyOutcome::Applied { sequence: envelope.sequence })
    }

    /// The peripheral cursors of the current boundary.
    pub fn peripheral_cursor_state(&self) -> (r: &PeripheralCursorState)
        ensures
            r@ == self@.peripheral_state,
    {
        &self.peripheral_state
    }

    /// Stages a peripheral cursor update at the current boundary; cursors
    /// that do not list each channel once, in order, are refused.
    pub fn set_peripheral_cursor_state(&mut self, state: PeripheralCursorState) -> (r: Result<
        (),
        DurabilityError,
    >)
        requires
            old(self).wf(),
        ensures
            final(self).wf(),
            r is Ok <==> cursors_valid(state@),
            r is Err ==> (r matches Err(DurabilityError::Corrupt(_))) && final(self)@ == old(self)@,
            r is Ok ==> final(self)@ == (DurableShardView { peripheral_state: state@, ..old(self)@ }),
    {
        if !state.verify() {
            return Err(
                DurabilityError::Corrupt(
                    String::from_str("peripheral cursors must list each channel once, in order"),
                ),
            );
        }
        let ghost before = self@;
        self.peripheral_state = state;
        proof {
            lemma_consistent_same_core(before, self@);
        }
        Ok(())
    }

    /// The committed biological state.
    pub fn biological_state(&self) -> (r: &[u8])
        ensures
            r@ == self@.biological_state,
    {
        self.biological_state.as_slice()
    }

    /// The committed channel boundary.
    pub fn channel_state(&self) -> (r: &[u8])
        ensures
            r@ == self@.channel_state,
    {
        self.channel_state.as_slice()
    }

    /// The tag of the last applied event.
    pub fn applied_tag(&self) -> (r: LogicalTag)
        ensures
            r == self@.applied_tag,
    {
        self.applied_tag
    }

    /// The tag of the last committed event.
    pub fn committed_tag(&self) -> (r: LogicalTag)
        ensures
            r == self@.committed_tag,
    {
        self.committed_tag
    }

    /// The shard's authority term.
    pub fn lease_term(&self) -> (r: LeaseTerm)
        ensures
            r == self@.lease_term,
    {
        self.lease_term
    }

    /// The sequence of the last committed WAL record, if any.
    pub fn durable_log_sequence(&self) -> (r: Option<u64>)
        requires
            self.wf(),
        ensures
            r == (if self@.wal.len() == 0 {
                None
            } else {
                Some((self@.wal.len() - 1) as u64)
            }),
    {
        self.wal.last_sequence()
    }

    /// The number of durable receipts.
    pub fn receipt_count(&self) -> (n: usize)
        ensures
            n == self@.receipts.len(),
    {
        self.receipts.len()
    }

    /// The durable receipts of one producer stream, in sequence order.
    pub fn stream_receipts(&self, stream_id: StreamId) -> (out: Vec<DurableReceipt>)
        ensures
            out@ == self@.receipts.filter(|r: DurableReceipt| r.stream_id == stream_id),
    {
        self.receipts.stream_receipts(stream_id)
    }

    /// The payload bound that receivers enforce.
    fn receiver_max_payload(&self) -> (r: u64)
        ensures
            r == self@.max_payload,
    {
        self.max_payload
    }

    /// Re-issues the complete durable prefix under a strictly newer term:
    /// WAL records and receipts are re-signed, receivers resume at their
    /// recorded progress, and biological, channel and peripheral state are
    /// kept.
    pub fn reissue_term(&mut self, term: LeaseTerm) -> (r: Result<(), DurabilityError>)
        requires
            old(self).wf(),
        ensures
            final(self).wf(),
            r is Ok <==> term.0 > old(self)@.lease_term.0,
            r matches Err(e) ==> e matches DurabilityError::StaleTerm { expected, received } && expected
                == old(self)@.lease_term && received == term,
            r is Err ==> final(self)@ == old(self)@,
            r is Ok ==> {
                &&& is_retermed(old(self)@.wal, final(self)@.wal, term)
                &&& final(self)@ == (DurableShardView {
                    lease_term: term,
                    receivers: reissued_receivers(old(self)@, term),
                    wal: final(self)@.wal,
                    receipts: old(self)@.receipts.map_values(
                        |x: DurableReceipt| receipt_with_term(x, term),
                    ),
                    ..old(self)@
                })
            },
    {
        if term.0 <= self.lease_term.0 {
            return Err(DurabilityError::StaleTerm { expected: self.lease_term, received: term });
        }
        let ghost v = self@;
        let current = self.wal.records();
        let records = reterm_records(current.as_slice(), term);
        proof {
            reveal(chain_valid);
            assert(records_view(current@) == v.wal);
            lemma_retermed_chain_valid(v.wal, records_view(records@), term);
            self.wal.lemma_len_bound();
            lemma_replica_accepts_chain(term, records_view(records@));
        }
        let warm_records = copy_records(&records);
        let wal = match CausalWal::from_records(term, records) {
            Ok(w) => w,
            Err(e) => {
                return Err(e);
            },
        };
        let warm_replica = match WarmReplica::from_records(term, warm_records) {
            Ok(w) => w,
            Err(e) => {
                return Err(e);
            },
        };
        let receipts = self.receipts.with_term(term);
        let mut receivers: Vec<ReliableReceiver> = Vec::new();
        let mut i: usize = 0;
        while i < self.receivers.len()
            invariant
                v == self@,
                receivers_wf(v),
                i <= v.receivers.len(),
                receivers@ == v.receivers.subrange(0, i as int).map_values(
                    |r: ReliableReceiver| resumed_receiver(v, r.stream, term, stream_next(v.receipts, r.stream)),
                ),
            decreases v.receivers.len() - i,
        {
            let stream = self.receivers[i].stream;
            let next = self.receipts.stream_next_sequence(stream);
            receivers.push(
                ReliableReceiver::from_progress(
                    self.brain_id,
                    stream,
                    term,
                    self.partition_generation,
                    self.receiver_max_payload(),
                    next,
                    Some(self.committed_tag),
                ),
            );
            i = i + 1;
            assert(receivers@ =~= v.receivers.subrange(0, i as int).map_values(
                |r: ReliableReceiver| resumed_receiver(v, r.stream, term, stream_next(v.receipts, r.stream)),
            ));
        }
        assert(v.receivers.subrange(0, v.receivers.len() as int) =~= v.receivers);
        if self.find_receiver(self.stream_id).is_none() {
            receivers.push(
                ReliableReceiver::from_progress(
                    self.brain_id,
                    self.stream_id,
                    term,
                    self.partition_generation,
                    self.receiver_max_payload(),
                    0,
                    Some(self.committed_tag),
                ),
            );
        }
        self.lease_term = term;
        self.receivers = receivers;
        self.wal = wal;
        self.warm_replica = warm_replica;
        self.receipts = receipts;
        proof {
            let n = self@;
            assert(n.receivers == reissued_receivers(v, term));
            lemma_reissue_consistent(v, n, term);
            assert forall|a: int, b: int| 0 <= a < b < n.receivers.len() implies (#[trigger] n.receivers[a]).stream != (
            #[trigger] n.receivers[b]).stream by {
                if b < v.receivers.len() {
                    assert(n.receivers[a].stream == v.receivers[a].stream);
                    assert(n.receivers[b].stream == v.receivers[b].stream);
                } else {
                    assert(n.receivers[a].stream == v.receivers[a].stream);
                    assert(!has_receiver(v.receivers, v.stream_id));
                }
            }
        }
        Ok(())
    }

    /// The sealed checkpoint of the current boundary.
    pub fn checkpoint_payload(&self) -> (r: Result<ShardCheckpointPayload, DurabilityError>)
        requires
            self.wf(),
        ensures
            r is Ok <==> checkpoint_material(shard_snapshot(self@)).len() <= max_checkpoint_bytes(),
            r is Err ==> r matches Err(DurabilityError::PayloadTooLarge { .. }),
            r matches Ok(p) ==> p.wf() && p@ == (ShardCheckpointView {
                state_digest: checkpoint_digest(checkpoint_material(shard_snapshot(self@))),
                ..shard_snapshot(self@)
            }),
    {
        let payload = ShardCheckpointPayload::new(
            self.brain_id,
            self.shard_id,
            self.topology_generation,
            self.partition_generation,
            self.lease_term,
            self.committed_tag,
            self.applied_tag,
            self.wal.last_sequence(),
            copy_bytes(self.biological_state.as_slice()),
            copy_records(self.wal.records()),
            copy_bytes(self.channel_state.as_slice()),
            self.receipts.copy(),
        );
        let payload = match payload.with_peripheral_state(self.peripheral_state.copy()) {
            Ok(p) => p,
            Err(e) => {
                return Err(e);
            },
        };
        assert(payload@ == shard_snapshot(self@));
        payload.seal()
    }

    /// Rebuilds a shard from a checkpoint after checking it completely; the
    /// receivers resume one past each stream's highest receipt, and `stream_id`
    /// is admitted.
    #[verifier::rlimit(40)]
    pub fn restore_from_checkpoint(
        payload: ShardCheckpointPayload,
        stream_id: StreamId,
        max_payload: u64,
    ) -> (r: Result<DurableShard, DurabilityError>)
        requires
            payload.wf(),
        ensures
            r is Ok <==> restorable(payload@),
            !checkpoint_verifies(payload@) ==> (r matches Err(e) && crate::checkpoint::verify_refusal(e, payload@)),
            checkpoint_verifies(payload@) && !(chain_valid(payload@.causal_state, payload@.lease_term)
                && payload@.durable_wal_sequence == (if payload@.causal_state.len() == 0 {
                None
            } else {
                Some((payload@.causal_state.len() - 1) as u64)
            }) && receipts_match(payload@)) ==> r matches Err(DurabilityError::Corrupt(_)),
            checkpoint_verifies(payload@) && !restorable(payload@) ==> (r matches Err(DurabilityError::Corrupt(_))
                || r matches Err(DurabilityError::SequenceOverflow)),
            r matches Ok(s) ==> {
                &&& s.wf()
                &&& s@.brain_id == payload@.brain_id
                &&& s@.shard_id == payload@.shard_id
                &&& s@.topology_generation == payload@.topology_generation
                &&& s@.partition_generation == payload@.partition_generation
                &&& s@.lease_term == payload@.lease_term
                &&& s@.stream_id == stream_id
                &&& s@.max_payload == max_payload
                &&& s@.committed_tag == payload@.committed_tag
                &&& s@.applied_tag == payload@.applied_tag
                &&& s@.biological_state == payload@.biological_state
                &&& s@.channel_state == payload@.channel_state
                &&& s@.peripheral_state == payload@.peripheral_state
                &&& s@.wal == payload@.causal_state
                &&& s@.receipts == payload@.receipts
                &&& receivers_restored(s@.receivers, payload@, stream_id, max_payload)
            },
    {
        let ghost p = payload@;
        match payload.verify() {
            Ok(()) => {},
            Err(e) => {
                return Err(e);
            },
        }
        let term = payload.lease_term;
        let records = copy_records(&payload.causal_state);
        let wal = match CausalWal::from_records(term, records) {
            Ok(w) => w,
            Err(e) => {
                return Err(e);
            },
        };
        if !opt_u64_equal(wal.last_sequence(), payload.durable_wal_sequence) {
            return Err(
                DurabilityError::Corrupt(
                    String::from_str("checkpoint WAL position does not match its records"),
                ),
            );
        }
        if !Self::receipts_match_records(&payload) {
            return Err(
                DurabilityError::Corrupt(
                    String::from_str("checkpoint receipts do not match the causal WAL"),
                ),
            );
        }
        proof {
            wal.lemma_len_bound();
            lemma_replica_accepts_chain(term, p.causal_state);
        }
        let warm_replica = match WarmReplica::from_records(term, copy_records(&payload.causal_state)) {
            Ok(w) => w,
            Err(e) => {
                return Err(e);
            },
        };
        let receivers = match Self::restored_receivers(&payload, stream_id, max_payload) {
            Ok(r) => r,
            Err(e) => {
                return Err(e);
            },
        };
        proof {
            lemma_restored_receivers_wf(receivers@, p, stream_id, max_payload);
        }
        let s = DurableShard {
            brain_id: payload.brain_id,
            shard_id: payload.shard_id,
            topology_generation: payload.topology_generation,
            partition_generation: payload.partition_generation,
            lease_term: term,
            stream_id,
            max_payload,
            committed_tag: payload.committed_tag,
            applied_tag: payload.applied_tag,
            biological_state: payload.biological_state,
            channel_state: payload.channel_state,
            peripheral_state: payload.peripheral_state,
            receivers,
            wal,
            warm_replica,
            receipts: payload.receipts,
        };
        proof {
            lemma_restore_consistent(s@, p);
        }
        Ok(s)
    }

    fn receipts_match_records(payload: &ShardCheckpointPayload) -> (ok: bool)
        ensures
            ok == receipts_match(payload@),
    {
        let receipts = payload.receipts.receipts();
        let records = &payload.causal_state;
        let ghost p = payload@;
        if receipts.len() != records.len() {
            return false;
        }
        let mut i: usize = 0;
        while i < receipts.len()
            invariant
                p == payload@,
                receipts@ == p.receipts,
                records_view(records@) == p.causal_state,
                i <= receipts@.len(),
                forall|k: int|
                    0 <= k < i ==> receipt_backed(
                        #[trigger] p.receipts[k],
                        p.causal_state,
                        p.lease_term,
                        p.partition_generation,
                    ),
            decreases receipts@.len() - i,
        {
            let r = receipts[i];
            if r.lease_term != payload.lease_term || r.partition_generation != payload.partition_generation {
                return false;
            }
            let mut j: usize = 0;
            let mut found = false;
            while j < records.len() && !found
                invariant
                    records_view(records@) == p.causal_state,
                    j <= records@.len(),
                    !found ==> forall|k: int| 0 <= k < j ==> (#[trigger] p.causal_state[k]).event != r.event_id,
                    found ==> j > 0 && first_with_event(p.causal_state, r.event_id, j - 1),
                decreases records@.len() - j + (if found { 0int } else { 1int }),
            {
                assert(p.causal_state[j as int] == records@[j as int]@);
                if records[j].event == r.event_id {
                    found = true;
                }
                j = j + 1;
            }
            if !found {
                return false;
            }
            let rec = &records[j - 1];
            assert(p.causal_state[j - 1] == rec@);
            let d = digest_domain("causal-payload", rec.payload.as_slice());
            if rec.tag != r.tag || d != r.payload_digest {
                proof {
                    assert forall|jj: int| #![trigger p.causal_state[jj]] !(first_with_event(p.causal_state, r.event_id, jj) && p.causal_state[jj].tag == r.tag
                        && single_domain_digest("causal-payload".spec_bytes(), p.causal_state[jj].payload) == r.payload_digest) by {
                        if first_with_event(p.causal_state, r.event_id, jj) {
                            assert(jj == j - 1) by {
                                if jj < j - 1 {
                                } else if jj > j - 1 {
                                    assert(p.causal_state[j - 1].event == r.event_id);
                                }
                            }
                        }
                    }
                    assert(!receipt_backed(p.receipts[i as int], p.causal_state, p.lease_term, p.partition_generation));
                }
                return false;
            }
            i = i + 1;
        }
        let mut j: usize = 0;
        while j < records.len()
            invariant
                p == payload@,
                receipts@ == p.receipts,
                records_view(records@) == p.causal_state,
                j <= records@.len(),
                forall|k: int| 0 <= k < j ==> has_event(p.receipts, (#[trigger] p.causal_state[k]).event),
            decreases records@.len() - j,
        {
            let e = records[j].event;
            assert(p.causal_state[j as int].event == e);
            let mut i2: usize = 0;
            let mut found = false;
            while i2 < receipts.len() && !found
                invariant
                    receipts@ == p.receipts,
                    i2 <= receipts@.len(),
                    !found ==> forall|k: int| 0 <= k < i2 ==> (#[trigger] p.receipts[k]).event_id != e,
                    found ==> has_event(p.receipts, e),
                decreases receipts@.len() - i2 + (if found { 0int } else { 1int }),
            {
                if receipts[i2].event_id == e {
                    found = true;
                }
                i2 = i2 + 1;
            }
            if !found {
                return false;
            }
            j = j + 1;
        }
        true
    }

    fn restored_receivers(payload: &ShardCheckpointPayload, stream_id: StreamId, max_payload: u64) -> (r: Result<
        Vec<ReliableReceiver>,
        DurabilityError,
    >)
        ensures
            r is Ok <==> streams_contiguous(payload@.receipts),
            r is Err ==> r matches Err(DurabilityError::Corrupt(_)) || r matches Err(
                DurabilityError::SequenceOverflow,
            ),
            r matches Ok(rs) ==> receivers_restored(rs@, payload@, stream_id, max_payload),
    {
        let receipts = payload.receipts.receipts();
        let ghost rs = payload@.receipts;
        let mut i: usize = 0;
        while i < receipts.len()
            invariant
                receipts@ == rs,
                rs == payload@.receipts,
                i <= rs.len(),
                forall|k: int| 0 <= k < i ==> (#[trigger] rs[k]).sequence < u64::MAX && rs[k].sequence
                    == expected_sequence(rs, k),
            decreases rs.len() - i,
        {
            let r = receipts[i];
            assert(rs[i as int] == r);
            if r.sequence == u64::MAX {
                assert(!streams_contiguous(rs));
                return Err(DurabilityError::SequenceOverflow);
            }
            let expected: u64 = if i > 0 && receipts[i - 1].stream_id == r.stream_id {
                receipts[i - 1].sequence + 1
            } else {
                0
            };
            assert(expected == expected_sequence(rs, i as int));
            if r.sequence != expected {
                assert(!streams_contiguous(rs));
                return Err(
                    DurabilityError::Corrupt(
                        String::from_str("checkpoint causal stream has a sequence gap"),
                    ),
                );
            }
            i = i + 1;
        }
        let mut out: Vec<ReliableReceiver> = Vec::new();
        let mut i: usize = 0;
        while i < receipts.len()
            invariant
                receipts@ == rs,
                rs == payload@.receipts,
                i <= rs.len(),
                forall|st: StreamId| has_receiver(out@, st) <==> has_stream(rs.take(i as int), st),
                forall|k: int|
                    0 <= k < out@.len() ==> #[trigger] out@[k] == restored_receiver(payload@, out@[k].stream, max_payload),
                forall|a: int, b: int|
                    0 <= a < b < out@.len() ==> (#[trigger] out@[a]).stream != (#[trigger] out@[b]).stream,
            decreases rs.len() - i,
        {
            let st = receipts[i].stream_id;
            let seen = has_stream_receiver(&out, st);
            let ghost before = out@;
            if !seen {
                let next = payload.receipts.stream_next_sequence(st);
                out.push(
                    ReliableReceiver::from_progress(
                        payload.brain_id,
                        st,
                        payload.lease_term,
                        payload.partition_generation,
                        max_payload,
                        next,
                        Some(payload.committed_tag),
                    ),
                );
            }
            proof {
                let t = rs.take(i + 1);
                assert(t =~= rs.take(i as int).push(rs[i as int]));
                assert forall|s2: StreamId| has_receiver(out@, s2) <==> has_stream(t, s2) by {
                    if has_stream(t, s2) {
                        let w = choose|w: int| 0 <= w < t.len() && (#[trigger] t[w]).stream_id == s2;
                        if w < i {
                            assert(rs.take(i as int)[w] == t[w]);
                            assert(has_stream(rs.take(i as int), s2));
                            assert(has_receiver(before, s2));
                            let q = choose|q: int| 0 <= q < before.len() && (#[trigger] before[q]).stream == s2;
                            assert(out@[q] == before[q]);
                        } else {
                            if seen {
                                assert(has_receiver(before, s2));
                                let q = choose|q: int| 0 <= q < before.len() && (#[trigger] before[q]).stream == s2;
                                assert(out@[q] == before[q]);
                            } else {
                                assert(out@[before.len() as int].stream == s2);
                            }
                        }
                    }
                    if has_receiver(out@, s2) {
                        let q = choose|q: int| 0 <= q < out@.len() && (#[trigger] out@[q]).stream == s2;
                        if q < before.len() {
                            assert(out@[q] == before[q]);
                            assert(has_receiver(before, s2));
                            assert(has_stream(rs.take(i as int), s2));
                            let w = choose|w: int| 0 <= w < i && (#[trigger] rs.take(i as int)[w]).stream_id == s2;
                            assert(t[w] == rs.take(i as int)[w]);
                        } else {
                            assert(t[i as int].stream_id == s2);
                        }
                    }
                }
                if !seen {
                    assert forall|a: int, b: int| 0 <= a < b < out@.len() implies (#[trigger] out@[a]).stream != (#[trigger] out@[b]).stream by {
                        if b == before.len() {
                            assert(out@[a] == before[a]);
                        } else {
                            assert(out@[a] == before[a]);
                            assert(out@[b] == before[b]);
                        }
                    }
                }
            }
            i = i + 1;
        }
        assert(rs.take(rs.len() as int) =~= rs);
        let seen = has_stream_receiver(&out, stream_id);
        let ghost before = out@;
        if !seen {
            proof {
                assert(!has_stream(rs, stream_id));
                lemma_stream_next_absent(rs, stream_id);
            }
            out.push(
                ReliableReceiver::from_progress(
                    payload.brain_id,
                    stream_id,
                    payload.lease_term,
                    payload.partition_generation,
                    max_payload,
                    0,
                    Some(payload.committed_tag),
                ),
            );
            proof {
                assert forall|s2: StreamId| has_receiver(out@, s2) <==> (has_stream(rs, s2) || s2 == stream_id) by {
                    if has_receiver(before, s2) {
                        let q = choose|q: int| 0 <= q < before.len() && (#[trigger] before[q]).stream == s2;
                        assert(out@[q] == before[q]);
                    }
                    if s2 == stream_id {
                        assert(out@[before.len() as int].stream == s2);
                    }
                    if has_receiver(out@, s2) {
                        let q = choose|q: int| 0 <= q < out@.len() && (#[trigger] out@[q]).stream == s2;
                        if q < before.len() {
                            assert(out@[q] == before[q]);
                        }
                    }
                }
                assert forall|a: int, b: int| 0 <= a < b < out@.len() implies (#[trigger] out@[a]).stream != (#[trigger] out@[b]).stream by {
                    if b == before.len() {
                        assert(out@[a] == before[a]);
                    } else {
                        assert(out@[a] == before[a]);
                        assert(out@[b] == before[b]);
                    }
                }
            }
        }
        assert(receivers_restored(out@, payload@, stream_id, max_payload)) by {
            reveal(receivers_restored);
        }
        Ok(out)
    }

    fn find_receiver(&self, stream: StreamId) -> (r: Option<usize>)
        ensures
            r matches Some(i) ==> i < self@.receivers.len() && self@.receivers[i as int].stream
                == stream,
            r is None ==> !has_receiver(self@.receivers, stream),
    {
        let mut i: usize = 0;
        while i < self.receivers.len()
            invariant
                i <= self.receivers@.len(),
                forall|j: int| 0 <= j < i ==> (#[trigger] self.receivers@[j]).stream != stream,
            decreases self.receivers@.len() - i,
        {
            if self.receivers[i].stream == stream {
                return Some(i);
            }
            i = i + 1;
        }
        None
    }
}

/// A shard's own checkpoint always restores: the sealed snapshot of any
/// well-formed shard verifies, carries an intact WAL ending at its recorded
/// position, receipts that match that WAL, and contiguous streams. Restoring
/// it (see [`DurableShard::restore_from_checkpoint`]) gives back the shard's
/// identity, term, logical time, biological, channel and peripheral state,
/// WAL and receipts.
pub proof fn lemma_own_checkpoint_restorable(s: DurableShard)
    requires
        s.wf(),
        checkpoint_material(shard_snapshot(s@)).len() <= max_checkpoint_bytes(),
    ensures
        restorable(
            ShardCheckpointView {
                state_digest: checkpoint_digest(checkpoint_material(shard_snapshot(s@))),
                ..shard_snapshot(s@)
            },
        ),
        checkpoint_verifies(
            ShardCheckpointView {
                state_digest: checkpoint_digest(checkpoint_material(shard_snapshot(s@))),
                ..shard_snapshot(s@)
            },
        ),
{
    reveal(shard_consistent);
    let snap = shard_snapshot(s@);
    let p = ShardCheckpointView { state_digest: checkpoint_digest(checkpoint_material(snap)), ..snap };
    assert(checkpoint_material(p) == checkpoint_material(snap));
    assert(checkpoint_verifies(p));
    assert(receipts_match(p) == receipts_match(snap));
}

/// The WAL of a well-formed shard is an intact chain under the shard's term.
pub proof fn lemma_shard_wal_intact(s: DurableShard)
    requires
        s.wf(),
    ensures
        chain_valid(s@.wal, s@.lease_term),
        s@.wal.len() <= u64::MAX,
{
    s.wal.lemma_len_bound();
}

} // verus!
