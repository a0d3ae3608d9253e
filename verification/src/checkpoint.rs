//! Shard checkpoint payloads and the immutable in-memory checkpoint catalogue.

use crate::digest::{digest_domain, push_u32_be, push_u64_be, single_domain_digest, u32_be, u64_be};
use crate::error::DurabilityError;
use crate::framing::{
    lemma_concat_assoc, lemma_split_equal, bytes_frame, cursors_frame, opt_u64_frame, push_bytes_frame, push_cursors, push_opt_u64,
    push_receipts, push_records, push_tag, receipts_frame, records_frame, tag_frame,
};
use crate::ids::{
    BrainId, EventId, LeaseTerm, LogicalTag, PartitionGeneration, SchemaVersion, ShardId,
    StateDigest, TopologyGeneration,
};
use crate::peripheral::{cursors_valid, PeripheralCursor, PeripheralCursorState};
use crate::receipts::{DurableReceipt, ReceiptLedger};
use crate::framing_laws::{
    lemma_bytes_prefix, lemma_cursors_frame_injective, lemma_cursors_frame_len, lemma_opt_u64_prefix,
    lemma_records_prefix, lemma_tag_prefix, lemma_u32_prefix, lemma_u64_prefix, record_bounded,
};
use crate::wal::{copy_bytes, records_view, WalRecord, WalRecordView};
use vstd::prelude::*;
use vstd::string::*;

verus! {

/// Mathematical value of a [`ShardCheckpointPayload`].
pub struct ShardCheckpointView {
    pub schema_version: SchemaVersion,
    pub brain_id: BrainId,
    pub shard_id: ShardId,
    pub topology_generation: TopologyGeneration,
    pub partition_generation: PartitionGeneration,
    pub lease_term: LeaseTerm,
    pub committed_tag: LogicalTag,
    pub applied_tag: LogicalTag,
    pub durable_wal_sequence: Option<u64>,
    pub biological_state: Seq<u8>,
    pub causal_state: Seq<WalRecordView>,
    pub channel_state: Seq<u8>,
    pub peripheral_state: Seq<PeripheralCursor>,
    pub receipts: Seq<DurableReceipt>,
    pub state_digest: StateDigest,
}

/// The explicit contents of a shard checkpoint: opaque biological bytes, the
/// causal WAL prefix, the channel boundary, peripheral cursors and receipts,
/// sealed by a digest over all of them.
#[derive(Clone, Debug)]
pub struct ShardCheckpointPayload {
    pub schema_version: SchemaVersion,
    pub brain_id: BrainId,
    pub shard_id: ShardId,
    pub topology_generation: TopologyGeneration,
    pub partition_generation: PartitionGeneration,
    pub lease_term: LeaseTerm,
    pub committed_tag: LogicalTag,
    pub applied_tag: LogicalTag,
    pub durable_wal_sequence: Option<u64>,
    pub biological_state: Vec<u8>,
    /// The causal WAL prefix up to `durable_wal_sequence`.
    pub causal_state: Vec<WalRecord>,
    pub channel_state: Vec<u8>,
    pub peripheral_state: PeripheralCursorState,
    pub receipts: ReceiptLedger,
    pub state_digest: StateDigest,
}

impl View for ShardCheckpointPayload {
    type V = ShardCheckpointView;

    open spec fn view(&self) -> ShardCheckpointView {
        ShardCheckpointView {
            schema_version: self.schema_version,
            brain_id: self.brain_id,
            shard_id: self.shard_id,
            topology_generation: self.topology_generation,
            partition_generation: self.partition_generation,
            lease_term: self.lease_term,
            committed_tag: self.committed_tag,
            applied_tag: self.applied_tag,
            durable_wal_sequence: self.durable_wal_sequence,
            biological_state: self.biological_state@,
            causal_state: records_view(self.causal_state@),
            channel_state: self.channel_state@,
            peripheral_state: self.peripheral_state@,
            receipts: self.receipts@,
            state_digest: self.state_digest,
        }
    }
}

/// Everything but the digest, framed; the peripheral domain is included.
pub open spec fn checkpoint_material(p: ShardCheckpointView) -> Seq<u8> {
    checkpoint_head(p) + u64_be(p.peripheral_state.len() as u64) + cursors_frame(p.peripheral_state)
        + checkpoint_tail(p)
}

/// The material of checkpoints sealed before the peripheral domain existed.
pub open spec fn legacy_checkpoint_material(p: ShardCheckpointView) -> Seq<u8> {
    checkpoint_head(p) + checkpoint_tail(p)
}

pub open spec fn checkpoint_head(p: ShardCheckpointView) -> Seq<u8> {
    u32_be(p.schema_version.0) + u64_be(p.brain_id.0) + u64_be(p.shard_id.0) + u64_be(
        p.topology_generation.0,
    ) + u64_be(p.partition_generation.0) + u64_be(p.lease_term.0) + tag_frame(p.committed_tag)
        + tag_frame(p.applied_tag) + opt_u64_frame(p.durable_wal_sequence) + bytes_frame(
        p.biological_state,
    ) + u64_be(p.causal_state.len() as u64) + records_frame(p.causal_state) + bytes_frame(
        p.channel_state,
    )
}

pub open spec fn checkpoint_tail(p: ShardCheckpointView) -> Seq<u8> {
    u64_be(p.receipts.len() as u64) + receipts_frame(p.receipts)
}

/// The digest that seals checkpoint material.
pub open spec fn checkpoint_digest(material: Seq<u8>) -> StateDigest {
    single_domain_digest("shard-checkpoint:v1".spec_bytes(), material)
}

/// The size bound on checkpoint material, in bytes.
pub open spec fn max_checkpoint_bytes() -> nat {
    64 * 1024 * 1024
}

/// Whether a payload verifies: current schema, valid peripheral cursors,
/// bounded material, and a digest over the current material or, for a payload
/// without peripheral cursors, over the legacy material.
pub open spec fn checkpoint_verifies(p: ShardCheckpointView) -> bool {
    &&& p.schema_version.0 == 1
    &&& cursors_valid(p.peripheral_state)
    &&& checkpoint_material(p).len() <= max_checkpoint_bytes()
    &&& (p.state_digest == checkpoint_digest(checkpoint_material(p)) || (p.peripheral_state.len()
        == 0 && p.state_digest == checkpoint_digest(legacy_checkpoint_material(p))))
}

/// The error with which [`ShardCheckpointPayload::verify`] refuses `p`: an
/// unsupported schema or invalid cursors are corrupt, oversized material is
/// too large, and anything else that fails is a digest mismatch.
pub open spec fn verify_refusal(e: DurabilityError, p: ShardCheckpointView) -> bool {
    if p.schema_version.0 != 1 {
        e is Corrupt
    } else if !cursors_valid(p.peripheral_state) {
        e is Corrupt
    } else if checkpoint_material(p).len() > max_checkpoint_bytes() {
        e is PayloadTooLarge
    } else {
        e is ShardCheckpointDigestMismatch
    }
}

impl ShardCheckpointPayload {
    pub const MAX_BYTES: usize = 67108864;

    /// The receipts inside the payload are well formed.
    pub open spec fn wf(&self) -> bool {
        self.receipts.wf()
    }

    /// An unsealed payload with no peripheral cursors.
    pub fn new(
        brain_id: BrainId,
        shard_id: ShardId,
        topology_generation: TopologyGeneration,
        partition_generation: PartitionGeneration,
        lease_term: LeaseTerm,
        committed_tag: LogicalTag,
        applied_tag: LogicalTag,
        durable_wal_sequence: Option<u64>,
        biological_state: Vec<u8>,
        causal_state: Vec<WalRecord>,
        channel_state: Vec<u8>,
        receipts: ReceiptLedger,
    ) -> (p: ShardCheckpointPayload)
        ensures
            p@ == (ShardCheckpointView {
                schema_version: SchemaVersion(1),
                brain_id,
                shard_id,
                topology_generation,
                partition_generation,
                lease_term,
                committed_tag,
                applied_tag,
                durable_wal_sequence,
                biological_state: biological_state@,
                causal_state: records_view(causal_state@),
                channel_state: channel_state@,
                peripheral_state: Seq::empty(),
                receipts: receipts@,
                state_digest: StateDigest { high: 0, low: 0 },
            }),
            p.receipts.wf() == receipts.wf(),
    {
        ShardCheckpointPayload {
            schema_version: SchemaVersion::current(),
            brain_id,
            shard_id,
            topology_generation,
            partition_generation,
            lease_term,
            committed_tag,
            applied_tag,
            durable_wal_sequence,
            biological_state,
            causal_state,
            channel_state,
            peripheral_state: PeripheralCursorState::empty(),
            receipts,
            state_digest: StateDigest::zero(),
        }
    }

    /// Replaces the peripheral cursors; invalid cursors are refused.
    pub fn with_peripheral_state(self, peripheral_state: PeripheralCursorState) -> (r: Result<
        ShardCheckpointPayload,
        DurabilityError,
    >)
        ensures
            r is Ok <==> cursors_valid(peripheral_state@),
            r is Err ==> r matches Err(DurabilityError::Corrupt(_)),
            r matches Ok(p) ==> p@ == (ShardCheckpointView {
                peripheral_state: peripheral_state@,
                ..self@
            }) && p.receipts.wf() == self.receipts.wf(),
    {
        if !peripheral_state.verify() {
            return Err(
                DurabilityError::Corrupt(
                    String::from_str("peripheral cursors must list each channel once, in order"),
                ),
            );
        }
        let mut p = self;
        p.peripheral_state = peripheral_state;
        Ok(p)
    }

    fn material(&self, with_peripheral: bool) -> (out: Vec<u8>)
        ensures
            out@ == (if with_peripheral {
                checkpoint_material(self@)
            } else {
                legacy_checkpoint_material(self@)
            }),
    {
        let mut out: Vec<u8> = Vec::new();
        push_u32_be(&mut out, self.schema_version.0);
        push_u64_be(&mut out, self.brain_id.0);
        push_u64_be(&mut out, self.shard_id.0);
        push_u64_be(&mut out, self.topology_generation.0);
        push_u64_be(&mut out, self.partition_generation.0);
        push_u64_be(&mut out, self.lease_term.0);
        push_tag(&mut out, self.committed_tag);
        push_tag(&mut out, self.applied_tag);
        push_opt_u64(&mut out, self.durable_wal_sequence);
        push_bytes_frame(&mut out, self.biological_state.as_slice());
        push_u64_be(&mut out, self.causal_state.len() as u64);
        push_records(&mut out, &self.causal_state);
        push_bytes_frame(&mut out, self.channel_state.as_slice());
        assert(out@ =~= checkpoint_head(self@));
        if with_peripheral {
            push_u64_be(&mut out, self.peripheral_state.cursors.len() as u64);
            push_cursors(&mut out, &self.peripheral_state.cursors);
        }
        let receipts = self.receipts.receipts();
        push_u64_be(&mut out, receipts.len() as u64);
        push_receipts(&mut out, receipts);
        if with_peripheral {
            assert(out@ =~= checkpoint_material(self@));
        } else {
            assert(out@ =~= legacy_checkpoint_material(self@));
        }
        out
    }

    /// The sealed material: every field but the digest, framed.
    pub fn encoded_bytes_without_digest(&self) -> (out: Vec<u8>)
        ensures
            out@ == checkpoint_material(self@),
    {
        self.material(true)
    }

    /// The material that checkpoints sealed before the peripheral domain
    /// existed were sealed over.
    pub fn encoded_bytes_without_peripheral_state(&self) -> (out: Vec<u8>)
        ensures
            out@ == legacy_checkpoint_material(self@),
    {
        self.material(false)
    }

    /// Computes the digest over every field but the digest itself.
    pub fn seal(self) -> (r: Result<ShardCheckpointPayload, DurabilityError>)
        ensures
            r is Ok <==> checkpoint_material(self@).len() <= max_checkpoint_bytes(),
            r matches Err(e) ==> e matches DurabilityError::PayloadTooLarge { bytes } && bytes
                == checkpoint_material(self@).len(),
            r matches Ok(p) ==> p@ == (ShardCheckpointView {
                state_digest: checkpoint_digest(checkpoint_material(self@)),
                ..self@
            }) && p.receipts.wf() == self.receipts.wf(),
    {
        let bytes = self.encoded_bytes_without_digest();
        if bytes.len() > Self::MAX_BYTES {
            return Err(DurabilityError::PayloadTooLarge { bytes: bytes.len() });
        }
        let digest = digest_domain("shard-checkpoint:v1", bytes.as_slice());
        let mut p = self;
        p.state_digest = digest;
        Ok(p)
    }

    /// Checks the schema, the peripheral cursors, the size bound and the
    /// digest; a payload without peripheral cursors may carry a legacy digest.
    pub fn verify(&self) -> (r: Result<(), DurabilityError>)
        ensures
            r is Ok <==> checkpoint_verifies(self@),
            r matches Err(e) ==> verify_refusal(e, self@),
            self@.schema_version.0 != 1 ==> r matches Err(DurabilityError::Corrupt(_)),
            self@.schema_version.0 == 1 && !cursors_valid(self@.peripheral_state) ==> r matches Err(
                DurabilityError::Corrupt(_),
            ),
            self@.schema_version.0 == 1 && cursors_valid(self@.peripheral_state)
                && checkpoint_material(self@).len() > max_checkpoint_bytes() ==> r matches Err(
                DurabilityError::PayloadTooLarge { .. },
            ),
            self@.schema_version.0 == 1 && cursors_valid(self@.peripheral_state)
                && checkpoint_material(self@).len() <= max_checkpoint_bytes()
                && !checkpoint_verifies(self@) ==> r matches Err(
                DurabilityError::ShardCheckpointDigestMismatch,
            ),
    {
        if self.schema_version.0 != 1 {
            return Err(
                DurabilityError::Corrupt(String::from_str("unsupported shard checkpoint schema")),
            );
        }
        if !self.peripheral_state.verify() {
            return Err(
                DurabilityError::Corrupt(
                    String::from_str("peripheral cursors must list each channel once, in order"),
                ),
            );
        }
        let bytes = self.encoded_bytes_without_digest();
        if bytes.len() > Self::MAX_BYTES {
            return Err(DurabilityError::PayloadTooLarge { bytes: bytes.len() });
        }
        let digest = digest_domain("shard-checkpoint:v1", bytes.as_slice());
        if digest != self.state_digest {
            if self.peripheral_state.cursors.len() == 0 {
                let legacy = self.encoded_bytes_without_peripheral_state();
                let legacy_digest = digest_domain("shard-checkpoint:v1", legacy.as_slice());
                if legacy_digest == self.state_digest {
                    return Ok(());
                }
            }
            return Err(DurabilityError::ShardCheckpointDigestMismatch);
        }
        Ok(())
    }
}

/// The manifest of one published checkpoint.
#[derive(Clone, Copy, Debug, PartialEq, Eq, Structural)]
pub struct CheckpointManifest {
    pub schema_version: SchemaVersion,
    pub checkpoint_id: EventId,
    pub lease_term: LeaseTerm,
    pub partition_generation: PartitionGeneration,
    pub last_wal_sequence: Option<u64>,
    pub state_digest: StateDigest,
}

/// A published checkpoint: its manifest and payload bytes.
#[derive(Clone, Debug)]
pub struct ImmutableCheckpoint {
    pub manifest: CheckpointManifest,
    pub payload: Vec<u8>,
}

/// Mathematical value of an [`ImmutableCheckpoint`].
pub struct ImmutableCheckpointView {
    pub manifest: CheckpointManifest,
    pub payload: Seq<u8>,
}

impl View for ImmutableCheckpoint {
    type V = ImmutableCheckpointView;

    open spec fn view(&self) -> ImmutableCheckpointView {
        ImmutableCheckpointView { manifest: self.manifest, payload: self.payload@ }
    }
}

/// The digest a manifest records for a checkpoint payload.
pub open spec fn payload_digest(payload: Seq<u8>) -> StateDigest {
    single_domain_digest("checkpoint-payload".spec_bytes(), payload)
}

/// Whether a checkpoint with this identity was published.
pub open spec fn is_published(cs: Seq<ImmutableCheckpointView>, id: EventId) -> bool {
    exists|i: int| 0 <= i < cs.len() && (#[trigger] cs[i]).manifest.checkpoint_id == id
}

/// The checkpoint published under `id`.
pub open spec fn published(cs: Seq<ImmutableCheckpointView>, id: EventId) -> ImmutableCheckpointView {
    cs[choose|i: int| 0 <= i < cs.len() && (#[trigger] cs[i]).manifest.checkpoint_id == id]
}

/// Identities are published at most once.
pub open spec fn ids_unique(cs: Seq<ImmutableCheckpointView>) -> bool {
    forall|i: int, j: int|
        0 <= i < j < cs.len() ==> (#[trigger] cs[i]).manifest.checkpoint_id != (
        #[trigger] cs[j]).manifest.checkpoint_id
}

/// The manifest written for a payload published under `id`.
pub open spec fn manifest_for(
    id: EventId,
    lease_term: LeaseTerm,
    partition_generation: PartitionGeneration,
    last_wal_sequence: Option<u64>,
    payload: Seq<u8>,
) -> CheckpointManifest {
    CheckpointManifest {
        schema_version: SchemaVersion(1),
        checkpoint_id: id,
        lease_term,
        partition_generation,
        last_wal_sequence,
        state_digest: payload_digest(payload),
    }
}

/// An immutable catalogue of checkpoints, each published once.
#[derive(Clone, Debug)]
pub struct CheckpointStore {
    published: Vec<ImmutableCheckpoint>,
}

impl View for CheckpointStore {
    type V = Seq<ImmutableCheckpointView>;

    closed spec fn view(&self) -> Seq<ImmutableCheckpointView> {
        self.published@.map_values(|c: ImmutableCheckpoint| c@)
    }
}

impl Default for CheckpointStore {
    fn default() -> (s: CheckpointStore)
        ensures
            s@ == Seq::<ImmutableCheckpointView>::empty(),
    {
        CheckpointStore::new()
    }
}

impl CheckpointStore {
    /// An empty catalogue.
    pub fn new() -> (s: CheckpointStore)
        ensures
            s@ == Seq::<ImmutableCheckpointView>::empty(),
    {
        let s = CheckpointStore { published: Vec::new() };
        assert(s@ =~= Seq::<ImmutableCheckpointView>::empty());
        s
    }

    fn find(&self, id: EventId) -> (r: Option<usize>)
        ensures
            r matches Some(i) ==> i < self@.len() && self@[i as int].manifest.checkpoint_id == id,
            r is None ==> !is_published(self@, id),
    {
        let mut i: usize = 0;
        while i < self.published.len()
            invariant
                i <= self@.len(),
                self@.len() == self.published@.len(),
                forall|j: int| 0 <= j < i ==> (#[trigger] self@[j]).manifest.checkpoint_id != id,
            decreases self@.len() - i,
        {
            assert(self@[i as int] == self.published@[i as int]@);
            if self.published[i].manifest.checkpoint_id == id {
                return Some(i);
            }
            i = i + 1;
        }
        None
    }

    /// Publishes a payload under a new identity. An identity is never
    /// published twice.
    pub fn publish(
        &mut self,
        checkpoint_id: EventId,
        lease_term: LeaseTerm,
        partition_generation: PartitionGeneration,
        last_wal_sequence: Option<u64>,
        payload: Vec<u8>,
    ) -> (r: Result<CheckpointManifest, DurabilityError>)
        requires
            ids_unique(old(self)@),
        ensures
            ids_unique(final(self)@),
            r is Ok <==> !is_published(old(self)@, checkpoint_id),
            r matches Err(e) ==> e matches DurabilityError::CheckpointAlreadyPublished(id) && id
                == checkpoint_id,
            r is Err ==> final(self)@ == old(self)@,
            r matches Ok(m) ==> m == manifest_for(
                checkpoint_id,
                lease_term,
                partition_generation,
                last_wal_sequence,
                payload@,
            ) && final(self)@ == old(self)@.push(ImmutableCheckpointView { manifest: m, payload: payload@ }),
    {
        if self.find(checkpoint_id).is_some() {
            return Err(DurabilityError::CheckpointAlreadyPublished(checkpoint_id));
        }
        let digest = digest_domain("checkpoint-payload", payload.as_slice());
        let manifest = CheckpointManifest {
            schema_version: SchemaVersion::current(),
            checkpoint_id,
            lease_term,
            partition_generation,
            last_wal_sequence,
            state_digest: digest,
        };
        let ghost before = self@;
        self.published.push(ImmutableCheckpoint { manifest, payload });
        assert(self@ =~= before.push(ImmutableCheckpointView { manifest, payload: payload@ }));
        Ok(manifest)
    }

    /// The checkpoint published under `checkpoint_id`, after checking its
    /// payload against the manifest digest.
    pub fn verify(&self, checkpoint_id: EventId) -> (r: Result<&ImmutableCheckpoint, DurabilityError>)
        requires
            ids_unique(self@),
        ensures
            !is_published(self@, checkpoint_id) ==> (r matches Err(
                DurabilityError::MissingCheckpoint(id),
            ) && id == checkpoint_id),
            is_published(self@, checkpoint_id) && published(self@, checkpoint_id).manifest.state_digest
                != payload_digest(published(self@, checkpoint_id).payload) ==> (r matches Err(
                DurabilityError::CheckpointDigestMismatch(id),
            ) && id == checkpoint_id),
            r is Ok <==> is_published(self@, checkpoint_id) && published(
                self@,
                checkpoint_id,
            ).manifest.state_digest == payload_digest(published(self@, checkpoint_id).payload),
            r matches Ok(c) ==> c@ == published(self@, checkpoint_id),
    {
        match self.find(checkpoint_id) {
            None => Err(DurabilityError::MissingCheckpoint(checkpoint_id)),
            Some(i) => {
                let c = &self.published[i];
                proof {
                    let k = choose|j: int| 0 <= j < self@.len() && (#[trigger] self@[j]).manifest.checkpoint_id == checkpoint_id;
                    assert(self@[i as int].manifest.checkpoint_id == checkpoint_id);
                    assert(k == i);
                    assert(self@[i as int] == c@);
                }
                let digest = digest_domain("checkpoint-payload", c.payload.as_slice());
                if digest != c.manifest.state_digest {
                    return Err(DurabilityError::CheckpointDigestMismatch(checkpoint_id));
                }
                Ok(c)
            },
        }
    }
}

/// Publication is immutable and readable: once an identity is published, the
/// catalogue returns exactly the manifest and payload written, and a second
/// publication under the same identity is refused.
pub proof fn lemma_published_checkpoint_reads_back(
    store: Seq<ImmutableCheckpointView>,
    id: EventId,
    lease_term: LeaseTerm,
    partition_generation: PartitionGeneration,
    last_wal_sequence: Option<u64>,
    payload: Seq<u8>,
)
    requires
        ids_unique(store),
        !is_published(store, id),
    ensures
        ({
            let m = manifest_for(id, lease_term, partition_generation, last_wal_sequence, payload);
            let after = store.push(ImmutableCheckpointView { manifest: m, payload });
            &&& ids_unique(after)
            &&& is_published(after, id)
            &&& published(after, id) == (ImmutableCheckpointView { manifest: m, payload })
            &&& published(after, id).manifest.state_digest == payload_digest(published(after, id).payload)
        }),
{
    let m = manifest_for(id, lease_term, partition_generation, last_wal_sequence, payload);
    let after = store.push(ImmutableCheckpointView { manifest: m, payload });
    assert(after[store.len() as int].manifest.checkpoint_id == id);
    let k = choose|j: int| 0 <= j < after.len() && (#[trigger] after[j]).manifest.checkpoint_id == id;
    if k < store.len() {
        assert(store[k].manifest.checkpoint_id == id);
    }
}

/// A shard payload read back from a published checkpoint is usable when it
/// verifies and carries the term, generation and WAL position that its
/// manifest records.
pub fn check_shard_payload(payload: &ShardCheckpointPayload, manifest: &CheckpointManifest) -> (r: Result<
    (),
    DurabilityError,
>)
    ensures
        r is Ok <==> checkpoint_verifies(payload@) && payload.lease_term == manifest.lease_term
            && payload.partition_generation == manifest.partition_generation && payload.durable_wal_sequence
            == manifest.last_wal_sequence,
        checkpoint_verifies(payload@) && r is Err ==> r matches Err(DurabilityError::Corrupt(_)),
{
    match payload.verify() {
        Ok(()) => {},
        Err(e) => {
            return Err(e);
        },
    }
    if payload.lease_term != manifest.lease_term || payload.partition_generation != manifest.partition_generation
        || payload.durable_wal_sequence != manifest.last_wal_sequence {
        return Err(
            DurabilityError::Corrupt(String::from_str("shard checkpoint payload does not match its manifest")),
        );
    }
    Ok(())
}

/// A checkpoint read back under `checkpoint_id` is intact when it names that
/// identity and its payload matches the manifest digest.
pub fn check_published(checkpoint: &ImmutableCheckpoint, checkpoint_id: EventId) -> (r: Result<
    (),
    DurabilityError,
>)
    ensures
        r is Ok <==> checkpoint.manifest.checkpoint_id == checkpoint_id && checkpoint.manifest.state_digest
            == payload_digest(checkpoint.payload@),
        r is Err ==> (r matches Err(DurabilityError::CheckpointDigestMismatch(id)) && id == checkpoint_id),
{
    if checkpoint.manifest.checkpoint_id != checkpoint_id {
        return Err(DurabilityError::CheckpointDigestMismatch(checkpoint_id));
    }
    let digest = digest_domain("checkpoint-payload", checkpoint.payload.as_slice());
    if digest != checkpoint.manifest.state_digest {
        return Err(DurabilityError::CheckpointDigestMismatch(checkpoint_id));
    }
    Ok(())
}

/// A sealed payload verifies whenever its schema is current and its
/// peripheral cursors are valid: the seal covers every field but itself.
pub proof fn lemma_sealed_payload_verifies(p: ShardCheckpointView)
    requires
        p.schema_version.0 == 1,
        cursors_valid(p.peripheral_state),
        checkpoint_material(p).len() <= max_checkpoint_bytes(),
    ensures
        checkpoint_verifies(ShardCheckpointView { state_digest: checkpoint_digest(checkpoint_material(p)), ..p }),
{
    let q = ShardCheckpointView { state_digest: checkpoint_digest(checkpoint_material(p)), ..p };
    assert(checkpoint_material(q) == checkpoint_material(p));
}

proof fn lemma_material_ends_with_receipts(p: ShardCheckpointView)
    ensures
        checkpoint_material(p) == (checkpoint_head(p) + u64_be(p.peripheral_state.len() as u64) + cursors_frame(
            p.peripheral_state,
        ) + u64_be(p.receipts.len() as u64)) + receipts_frame(p.receipts),
        legacy_checkpoint_material(p) == (checkpoint_head(p) + u64_be(p.receipts.len() as u64)) + receipts_frame(
            p.receipts,
        ),
{
    let x = checkpoint_head(p) + u64_be(p.peripheral_state.len() as u64) + cursors_frame(p.peripheral_state);
    let n = u64_be(p.receipts.len() as u64);
    let r = receipts_frame(p.receipts);
    assert(checkpoint_tail(p) == n + r);
    crate::framing::lemma_concat_assoc(x, n, r);
    crate::framing::lemma_concat_assoc(checkpoint_head(p), n, r);
}

/// The sealed material of a checkpoint determines its receipts: two
/// checkpoints with as many receipts whose material (current or legacy) is
/// equal hold the same receipts, so replacing a sealed checkpoint's receipts
/// changes what its digest covers.
pub proof fn lemma_material_determines_receipts(p: ShardCheckpointView, q: ShardCheckpointView)
    requires
        p.receipts.len() == q.receipts.len(),
        checkpoint_material(p) == checkpoint_material(q) || legacy_checkpoint_material(p)
            == legacy_checkpoint_material(q),
    ensures
        p.receipts == q.receipts,
{
    let rp = receipts_frame(p.receipts);
    let rq = receipts_frame(q.receipts);
    crate::framing::lemma_receipts_frame_len(p.receipts);
    crate::framing::lemma_receipts_frame_len(q.receipts);
    lemma_material_ends_with_receipts(p);
    lemma_material_ends_with_receipts(q);
    if checkpoint_material(p) == checkpoint_material(q) {
        lemma_suffix_equal(checkpoint_material(p), rp, rq);
    } else {
        lemma_suffix_equal(legacy_checkpoint_material(p), rp, rq);
    }
    crate::framing::lemma_receipts_frame_injective(p.receipts, q.receipts);
}

/// The lengths that a checkpoint's framing records fit its length fields.
pub open spec fn checkpoint_bounded(p: ShardCheckpointView) -> bool {
    &&& p.biological_state.len() <= u64::MAX
    &&& p.causal_state.len() <= u64::MAX
    &&& forall|i: int| 0 <= i < p.causal_state.len() ==> record_bounded(#[trigger] p.causal_state[i])
    &&& p.channel_state.len() <= u64::MAX
    &&& p.peripheral_state.len() <= u64::MAX
    &&& p.receipts.len() <= u64::MAX
}

/// Two checkpoints agree on everything their head frames: identity, fencing,
/// tags, durable sequence, biological bytes, the causal prefix and the channel
/// bytes.
pub open spec fn same_framed_head(p: ShardCheckpointView, q: ShardCheckpointView) -> bool {
    &&& p.schema_version == q.schema_version
    &&& p.brain_id == q.brain_id
    &&& p.shard_id == q.shard_id
    &&& p.topology_generation == q.topology_generation
    &&& p.partition_generation == q.partition_generation
    &&& p.lease_term == q.lease_term
    &&& p.committed_tag == q.committed_tag
    &&& p.applied_tag == q.applied_tag
    &&& p.durable_wal_sequence == q.durable_wal_sequence
    &&& p.biological_state == q.biological_state
    &&& p.causal_state == q.causal_state
    &&& p.channel_state == q.channel_state
}

proof fn lemma_head_nested(p: ShardCheckpointView, r: Seq<u8>)
    ensures
        checkpoint_head(p) + r == u32_be(p.schema_version.0) + (u64_be(p.brain_id.0) + (u64_be(p.shard_id.0) + (
        u64_be(p.topology_generation.0) + (u64_be(p.partition_generation.0) + (u64_be(p.lease_term.0) + (tag_frame(
            p.committed_tag,
        ) + (tag_frame(p.applied_tag) + (opt_u64_frame(p.durable_wal_sequence) + (bytes_frame(p.biological_state) + (
        u64_be(p.causal_state.len() as u64) + (records_frame(p.causal_state) + (bytes_frame(p.channel_state)
            + r)))))))))))),
{
    let x1 = u32_be(p.schema_version.0);
    let x2 = u64_be(p.brain_id.0);
    let x3 = u64_be(p.shard_id.0);
    let x4 = u64_be(p.topology_generation.0);
    let x5 = u64_be(p.partition_generation.0);
    let x6 = u64_be(p.lease_term.0);
    let x7 = tag_frame(p.committed_tag);
    let x8 = tag_frame(p.applied_tag);
    let x9 = opt_u64_frame(p.durable_wal_sequence);
    let x10 = bytes_frame(p.biological_state);
    let x11 = u64_be(p.causal_state.len() as u64);
    let x12 = records_frame(p.causal_state);
    let x13 = bytes_frame(p.channel_state);
    let h2 = x1 + x2;
    let h3 = h2 + x3;
    let h4 = h3 + x4;
    let h5 = h4 + x5;
    let h6 = h5 + x6;
    let h7 = h6 + x7;
    let h8 = h7 + x8;
    let h9 = h8 + x9;
    let h10 = h9 + x10;
    let h11 = h10 + x11;
    let h12 = h11 + x12;
    assert(checkpoint_head(p) == h12 + x13);
    lemma_concat_assoc(h12, x13, r);
    let t13 = x13 + r;
    lemma_concat_assoc(h11, x12, t13);
    let t12 = x12 + t13;
    lemma_concat_assoc(h10, x11, t12);
    let t11 = x11 + t12;
    lemma_concat_assoc(h9, x10, t11);
    let t10 = x10 + t11;
    lemma_concat_assoc(h8, x9, t10);
    let t9 = x9 + t10;
    lemma_concat_assoc(h7, x8, t9);
    let t8 = x8 + t9;
    lemma_concat_assoc(h6, x7, t8);
    let t7 = x7 + t8;
    lemma_concat_assoc(h5, x6, t7);
    let t6 = x6 + t7;
    lemma_concat_assoc(h4, x5, t6);
    let t5 = x5 + t6;
    lemma_concat_assoc(h3, x4, t5);
    let t4 = x4 + t5;
    lemma_concat_assoc(h2, x3, t4);
    let t3 = x3 + t4;
    lemma_concat_assoc(x1, x2, t3);
}


proof fn lemma_head_prefix(p: ShardCheckpointView, r1: Seq<u8>, q: ShardCheckpointView, r2: Seq<u8>)
    requires
        checkpoint_bounded(p),
        checkpoint_bounded(q),
        checkpoint_head(p) + r1 == checkpoint_head(q) + r2,
    ensures
        same_framed_head(p, q),
        r1 == r2,
{
    lemma_head_nested(p, r1);
    lemma_head_nested(q, r2);
    let a13 = bytes_frame(p.channel_state) + r1;
    let b13 = bytes_frame(q.channel_state) + r2;
    let a12 = records_frame(p.causal_state) + a13;
    let b12 = records_frame(q.causal_state) + b13;
    let a11 = u64_be(p.causal_state.len() as u64) + a12;
    let b11 = u64_be(q.causal_state.len() as u64) + b12;
    let a10 = bytes_frame(p.biological_state) + a11;
    let b10 = bytes_frame(q.biological_state) + b11;
    let a9 = opt_u64_frame(p.durable_wal_sequence) + a10;
    let b9 = opt_u64_frame(q.durable_wal_sequence) + b10;
    let a8 = tag_frame(p.applied_tag) + a9;
    let b8 = tag_frame(q.applied_tag) + b9;
    let a7 = tag_frame(p.committed_tag) + a8;
    let b7 = tag_frame(q.committed_tag) + b8;
    let a6 = u64_be(p.lease_term.0) + a7;
    let b6 = u64_be(q.lease_term.0) + b7;
    let a5 = u64_be(p.partition_generation.0) + a6;
    let b5 = u64_be(q.partition_generation.0) + b6;
    let a4 = u64_be(p.topology_generation.0) + a5;
    let b4 = u64_be(q.topology_generation.0) + b5;
    let a3 = u64_be(p.shard_id.0) + a4;
    let b3 = u64_be(q.shard_id.0) + b4;
    let a2 = u64_be(p.brain_id.0) + a3;
    let b2 = u64_be(q.brain_id.0) + b3;
    lemma_u32_prefix(p.schema_version.0, a2, q.schema_version.0, b2);
    lemma_u64_prefix(p.brain_id.0, a3, q.brain_id.0, b3);
    lemma_u64_prefix(p.shard_id.0, a4, q.shard_id.0, b4);
    lemma_u64_prefix(p.topology_generation.0, a5, q.topology_generation.0, b5);
    lemma_u64_prefix(p.partition_generation.0, a6, q.partition_generation.0, b6);
    lemma_u64_prefix(p.lease_term.0, a7, q.lease_term.0, b7);
    lemma_tag_prefix(p.committed_tag, a8, q.committed_tag, b8);
    lemma_tag_prefix(p.applied_tag, a9, q.applied_tag, b9);
    lemma_opt_u64_prefix(p.durable_wal_sequence, a10, q.durable_wal_sequence, b10);
    lemma_bytes_prefix(p.biological_state, a11, q.biological_state, b11);
    lemma_u64_prefix(p.causal_state.len() as u64, a12, q.causal_state.len() as u64, b12);
    assert(p.causal_state.len() == q.causal_state.len());
    lemma_records_prefix(p.causal_state, a13, q.causal_state, b13);
    lemma_bytes_prefix(p.channel_state, r1, q.channel_state, r2);
}

proof fn lemma_tail_determines_receipts(p: ShardCheckpointView, q: ShardCheckpointView)
    requires
        p.receipts.len() <= u64::MAX,
        q.receipts.len() <= u64::MAX,
        checkpoint_tail(p) == checkpoint_tail(q),
    ensures
        p.receipts == q.receipts,
{
    lemma_u64_prefix(
        p.receipts.len() as u64,
        receipts_frame(p.receipts),
        q.receipts.len() as u64,
        receipts_frame(q.receipts),
    );
    crate::framing::lemma_receipts_frame_injective(p.receipts, q.receipts);
}

/// Checkpoint material can be read back: two checkpoints whose material is
/// equal agree on everything but the digest (receipts, peripheral cursors and
/// every head field), so changing any sealed field of a checkpoint, its
/// receipts among them, changes the material that its digest covers.
pub proof fn lemma_material_determines_checkpoint(p: ShardCheckpointView, q: ShardCheckpointView)
    requires
        checkpoint_bounded(p),
        checkpoint_bounded(q),
        checkpoint_material(p) == checkpoint_material(q),
    ensures
        p.receipts == q.receipts,
        p.peripheral_state == q.peripheral_state,
        same_framed_head(p, q),
{
    let up = u64_be(p.peripheral_state.len() as u64);
    let uq = u64_be(q.peripheral_state.len() as u64);
    let cp = cursors_frame(p.peripheral_state);
    let cq = cursors_frame(q.peripheral_state);
    let tp = checkpoint_tail(p);
    let tq = checkpoint_tail(q);
    lemma_concat_assoc(checkpoint_head(p) + up, cp, tp);
    lemma_concat_assoc(checkpoint_head(p), up, cp + tp);
    lemma_concat_assoc(checkpoint_head(q) + uq, cq, tq);
    lemma_concat_assoc(checkpoint_head(q), uq, cq + tq);
    lemma_head_prefix(p, up + (cp + tp), q, uq + (cq + tq));
    lemma_u64_prefix(p.peripheral_state.len() as u64, cp + tp, q.peripheral_state.len() as u64, cq + tq);
    lemma_cursors_frame_len(p.peripheral_state);
    lemma_cursors_frame_len(q.peripheral_state);
    lemma_split_equal(cp, tp, cq, tq);
    lemma_cursors_frame_injective(p.peripheral_state, q.peripheral_state);
    lemma_tail_determines_receipts(p, q);
}

/// Legacy checkpoint material can be read back: two checkpoints whose legacy
/// material is equal hold the same receipts and agree on every head field.
pub proof fn lemma_legacy_material_determines_checkpoint(p: ShardCheckpointView, q: ShardCheckpointView)
    requires
        checkpoint_bounded(p),
        checkpoint_bounded(q),
        legacy_checkpoint_material(p) == legacy_checkpoint_material(q),
    ensures
        p.receipts == q.receipts,
        same_framed_head(p, q),
{
    lemma_head_prefix(p, checkpoint_tail(p), q, checkpoint_tail(q));
    lemma_tail_determines_receipts(p, q);
}

proof fn lemma_suffix_equal(m: Seq<u8>, a: Seq<u8>, b: Seq<u8>)
    requires
        a.len() == b.len(),
        exists|x: Seq<u8>| m == #[trigger] (x + a),
        exists|y: Seq<u8>| m == #[trigger] (y + b),
    ensures
        a == b,
{
    let x = choose|x: Seq<u8>| m == #[trigger] (x + a);
    let y = choose|y: Seq<u8>| m == #[trigger] (y + b);
    assert((x + a).len() == x.len() + a.len());
    assert((y + b).len() == y.len() + b.len());
    assert(x.len() == y.len());
    crate::framing::lemma_split_equal(x, a, y, b);
}

} // verus!
