//! The process-shared warm replica document: the replicated WAL prefix and the
//! two-phase checkpoint slots, with the decisions that keep it consistent with
//! the active owner. Reading, locking and writing the document are the
//! caller's concern.

use crate::causal_wal::{is_retermed, reterm_records};
use crate::checkpoint::{checkpoint_verifies, ShardCheckpointPayload, ShardCheckpointView};
use crate::error::DurabilityError;
use crate::ids::{LeaseTerm, SchemaVersion};
use crate::receipts::receipt_with_term;
use crate::replica::{
    lemma_replica_accepts_chain, lemma_replica_fold_suffix, replica_fold, replica_verdict, WarmReplica,
};
use crate::wal::chain_valid;
use crate::wal::{copy_records, records_view, WalRecord, WalRecordView};
use vstd::prelude::*;
use vstd::string::*;

verus! {

/// `a` is a prefix of `b`.
pub open spec fn prefix_of(a: Seq<WalRecordView>, b: Seq<WalRecordView>) -> bool {
    a.len() <= b.len() && b.take(a.len() as int) == a
}

/// Whether `prefix` is a prefix of `full`.
pub fn is_prefix(prefix: &Vec<WalRecord>, full: &Vec<WalRecord>) -> (r: bool)
    ensures
        r == prefix_of(records_view(prefix@), records_view(full@)),
{
    let ghost a = records_view(prefix@);
    let ghost b = records_view(full@);
    if prefix.len() > full.len() {
        return false;
    }
    let mut i: usize = 0;
    while i < prefix.len()
        invariant
            a == records_view(prefix@),
            b == records_view(full@),
            prefix@.len() <= full@.len(),
            i <= prefix@.len(),
            forall|k: int| 0 <= k < i ==> a[k] == b[k],
        decreases prefix@.len() - i,
    {
        if !prefix[i].same_as(&full[i]) {
            assert(b.take(a.len() as int)[i as int] != a[i as int]);
            return false;
        }
        i = i + 1;
    }
    assert(b.take(a.len() as int) =~= a);
    true
}

/// Whether two record vectors are equal.
pub fn same_records(a: &Vec<WalRecord>, b: &Vec<WalRecord>) -> (r: bool)
    ensures
        r == (records_view(a@) == records_view(b@)),
{
    if a.len() != b.len() {
        assert(records_view(a@).len() != records_view(b@).len());
        return false;
    }
    let r = is_prefix(a, b);
    proof {
        if r {
            assert(records_view(b@).take(records_view(a@).len() as int) =~= records_view(b@));
        } else {
            assert(records_view(b@).take(records_view(b@).len() as int) =~= records_view(b@));
        }
    }
    r
}

/// The persisted state of a warm replica.
#[derive(Clone, Debug)]
pub struct WarmReplicaDocument {
    pub schema_version: SchemaVersion,
    pub term: LeaseTerm,
    pub records: Vec<WalRecord>,
    /// The last complete shard boundary acknowledged by the active owner.
    pub checkpoint: Option<ShardCheckpointPayload>,
    /// A prepared boundary not yet acknowledged by the active owner.
    pub pending_checkpoint: Option<ShardCheckpointPayload>,
}

pub open spec fn opt_checkpoint_view(o: Option<ShardCheckpointPayload>) -> Option<ShardCheckpointView> {
    match o {
        Some(p) => Some(p@),
        None => None,
    }
}

/// Mathematical value of a [`WarmReplicaDocument`].
pub struct WarmReplicaDocumentView {
    pub schema_version: SchemaVersion,
    pub term: LeaseTerm,
    pub records: Seq<WalRecordView>,
    pub checkpoint: Option<ShardCheckpointView>,
    pub pending_checkpoint: Option<ShardCheckpointView>,
}

impl View for WarmReplicaDocument {
    type V = WarmReplicaDocumentView;

    open spec fn view(&self) -> WarmReplicaDocumentView {
        WarmReplicaDocumentView {
            schema_version: self.schema_version,
            term: self.term,
            records: records_view(self.records@),
            checkpoint: opt_checkpoint_view(self.checkpoint),
            pending_checkpoint: opt_checkpoint_view(self.pending_checkpoint),
        }
    }
}

pub open spec fn opt_payload_wf(o: Option<ShardCheckpointPayload>) -> bool {
    match o {
        Some(p) => p.wf(),
        None => true,
    }
}

/// A checkpoint can be re-issued: its peripheral cursors are valid and its
/// material is within the size bound.
pub open spec fn retermable(p: ShardCheckpointView) -> bool {
    crate::peripheral::cursors_valid(p.peripheral_state) && crate::checkpoint::checkpoint_material(p).len()
        <= crate::checkpoint::max_checkpoint_bytes()
}

/// The checkpoint re-issued under `term`: WAL and receipts re-signed,
/// peripheral cursors re-termed, everything else kept, then sealed again.
pub open spec fn retermed_checkpoint(p: ShardCheckpointView, q: ShardCheckpointView, term: LeaseTerm) -> bool {
    &&& is_retermed(p.causal_state, q.causal_state, term)
    &&& q.receipts == p.receipts.map_values(|x| receipt_with_term(x, term))
    &&& q.peripheral_state.len() == p.peripheral_state.len()
    &&& forall|i: int| 0 <= i < p.peripheral_state.len() ==> #[trigger] q.peripheral_state[i] == (
    crate::peripheral::PeripheralCursor { lease_term: term, ..p.peripheral_state[i] })
    &&& q.lease_term == term
    &&& q.schema_version.0 == 1
    &&& q.brain_id == p.brain_id
    &&& q.shard_id == p.shard_id
    &&& q.topology_generation == p.topology_generation
    &&& q.partition_generation == p.partition_generation
    &&& q.committed_tag == p.committed_tag
    &&& q.applied_tag == p.applied_tag
    &&& q.durable_wal_sequence == p.durable_wal_sequence
    &&& q.biological_state == p.biological_state
    &&& q.channel_state == p.channel_state
    &&& q.state_digest == crate::checkpoint::checkpoint_digest(
        crate::checkpoint::checkpoint_material(ShardCheckpointView { state_digest: q.state_digest, ..q }),
    )
}


/// Framings of records that pairwise have the same length have the same
/// total length.
proof fn lemma_records_frame_len(a: Seq<WalRecordView>, b: Seq<WalRecordView>)
    requires
        a.len() == b.len(),
        forall|i: int| 0 <= i < a.len() ==> (#[trigger] crate::framing::record_frame(a[i])).len()
            == crate::framing::record_frame(b[i]).len(),
    ensures
        crate::framing::records_frame(a).len() == crate::framing::records_frame(b).len(),
    decreases a.len(),
{
    if a.len() > 0 {
        lemma_records_frame_len(a.drop_last(), b.drop_last());
        assert(crate::framing::record_frame(a[a.len() - 1]).len() == crate::framing::record_frame(b[b.len() - 1]).len());
    }
}

proof fn lemma_receipts_frame_len(rs: Seq<crate::receipts::DurableReceipt>, term: LeaseTerm)
    ensures
        crate::framing::receipts_frame(rs.map_values(|x: crate::receipts::DurableReceipt| receipt_with_term(x, term))).len()
            == crate::framing::receipts_frame(rs).len(),
    decreases rs.len(),
{
    if rs.len() > 0 {
        let m = rs.map_values(|x: crate::receipts::DurableReceipt| receipt_with_term(x, term));
        assert(m.drop_last() =~= rs.drop_last().map_values(|x: crate::receipts::DurableReceipt| receipt_with_term(x, term)));
        lemma_receipts_frame_len(rs.drop_last(), term);
    }
}

proof fn lemma_cursors_frame_len(a: Seq<crate::peripheral::PeripheralCursor>, b: Seq<crate::peripheral::PeripheralCursor>)
    requires
        a.len() == b.len(),
    ensures
        crate::framing::cursors_frame(a).len() == crate::framing::cursors_frame(b).len(),
    decreases a.len(),
{
    if a.len() > 0 {
        lemma_cursors_frame_len(a.drop_last(), b.drop_last());
    }
}

proof fn lemma_record_frame_len_eq(a: WalRecordView, b: WalRecordView)
    requires
        a.payload == b.payload,
        a.replay == b.replay,
        a.channel_state == b.channel_state,
    ensures
        crate::framing::record_frame(a).len() == crate::framing::record_frame(b).len(),
{
    assert(crate::digest::u64_be(a.sequence).len() == crate::digest::u64_be(b.sequence).len());
    assert(crate::digest::u64_be(a.lease_term.0).len() == crate::digest::u64_be(b.lease_term.0).len());
    assert(crate::framing::tag_frame(a.tag).len() == crate::framing::tag_frame(b.tag).len());
    assert(crate::digest::u64_be(a.event.0).len() == crate::digest::u64_be(b.event.0).len());
    assert(crate::framing::digest_frame(a.previous_digest).len() == crate::framing::digest_frame(b.previous_digest).len());
    assert(crate::framing::digest_frame(a.record_digest).len() == crate::framing::digest_frame(b.record_digest).len());
}

proof fn lemma_retermed_records_frame_len(rs: Seq<WalRecordView>, out: Seq<WalRecordView>, term: LeaseTerm)
    requires
        is_retermed(rs, out, term),
    ensures
        crate::framing::records_frame(out).len() == crate::framing::records_frame(rs).len(),
{
    assert forall|i: int| 0 <= i < out.len() implies (#[trigger] crate::framing::record_frame(out[i])).len()
        == crate::framing::record_frame(rs[i]).len() by {
        assert(out[i] == crate::causal_wal::retermed_record(rs[i], term, crate::wal::chain_prev(out, i)));
        lemma_record_frame_len_eq(out[i], rs[i]);
    }
    lemma_records_frame_len(out, rs);
}

proof fn lemma_head_len_formula(p: ShardCheckpointView)
    ensures
        crate::checkpoint::checkpoint_head(p).len() == 92 + crate::framing::opt_u64_frame(p.durable_wal_sequence).len()
            + p.biological_state.len() + crate::framing::records_frame(p.causal_state).len()
            + p.channel_state.len(),
{
    let a1 = crate::digest::u32_be(p.schema_version.0);
    let a2 = crate::digest::u64_be(p.brain_id.0);
    let a3 = crate::digest::u64_be(p.shard_id.0);
    let a4 = crate::digest::u64_be(p.topology_generation.0);
    let a5 = crate::digest::u64_be(p.partition_generation.0);
    let a6 = crate::digest::u64_be(p.lease_term.0);
    let a7 = crate::framing::tag_frame(p.committed_tag);
    let a8 = crate::framing::tag_frame(p.applied_tag);
    let a9 = crate::framing::opt_u64_frame(p.durable_wal_sequence);
    let a10 = crate::framing::bytes_frame(p.biological_state);
    let a11 = crate::digest::u64_be(p.causal_state.len() as u64);
    let a12 = crate::framing::records_frame(p.causal_state);
    let a13 = crate::framing::bytes_frame(p.channel_state);
    assert(crate::checkpoint::checkpoint_head(p) == a1 + a2 + a3 + a4 + a5 + a6 + a7 + a8 + a9 + a10 + a11 + a12 + a13);
    assert(a1.len() == 4);
    assert(a2.len() == 8 && a3.len() == 8 && a4.len() == 8 && a5.len() == 8 && a6.len() == 8 && a11.len() == 8);
    assert(a7.len() == 12 && a8.len() == 12);
    assert(a10.len() == 8 + p.biological_state.len());
    assert(a13.len() == 8 + p.channel_state.len());
}

proof fn lemma_head_len(p: ShardCheckpointView, q: ShardCheckpointView)
    requires
        crate::framing::records_frame(q.causal_state).len() == crate::framing::records_frame(p.causal_state).len(),
        q.durable_wal_sequence == p.durable_wal_sequence,
        q.biological_state == p.biological_state,
        q.channel_state == p.channel_state,
    ensures
        crate::checkpoint::checkpoint_head(q).len() == crate::checkpoint::checkpoint_head(p).len(),
{
    lemma_head_len_formula(p);
    lemma_head_len_formula(q);
}

proof fn lemma_tail_len(p: ShardCheckpointView, q: ShardCheckpointView, term: LeaseTerm)
    requires
        q.receipts == p.receipts.map_values(|x: crate::receipts::DurableReceipt| receipt_with_term(x, term)),
    ensures
        crate::checkpoint::checkpoint_tail(q).len() == crate::checkpoint::checkpoint_tail(p).len(),
{
    lemma_receipts_frame_len(p.receipts, term);
    assert(q.receipts.len() == p.receipts.len());
}

/// Re-issuing a checkpoint under another term changes no length in its
/// material: only fixed-width fields change.
proof fn lemma_retermed_material_len(p: ShardCheckpointView, q: ShardCheckpointView, term: LeaseTerm)
    requires
        is_retermed(p.causal_state, q.causal_state, term),
        q.receipts == p.receipts.map_values(|x: crate::receipts::DurableReceipt| receipt_with_term(x, term)),
        q.peripheral_state.len() == p.peripheral_state.len(),
        q.durable_wal_sequence == p.durable_wal_sequence,
        q.biological_state == p.biological_state,
        q.channel_state == p.channel_state,
    ensures
        crate::checkpoint::checkpoint_material(q).len() == crate::checkpoint::checkpoint_material(p).len(),
{
    lemma_retermed_records_frame_len(p.causal_state, q.causal_state, term);
    lemma_head_len(p, q);
    lemma_tail_len(p, q, term);
    lemma_cursors_frame_len(q.peripheral_state, p.peripheral_state);
}

/// Re-issues a checkpoint under `term`: it succeeds exactly when the
/// checkpoint's peripheral cursors are valid and its material is within the
/// size bound, which re-issuing does not change.
pub fn reterm_checkpoint(checkpoint: &ShardCheckpointPayload, term: LeaseTerm) -> (r: Result<
    ShardCheckpointPayload,
    DurabilityError,
>)
    requires
        checkpoint.wf(),
    ensures
        r is Ok <==> retermable(checkpoint@),
        r matches Ok(q) ==> (q.wf() && retermed_checkpoint(checkpoint@, q@, term)),
        !crate::peripheral::cursors_valid(checkpoint@.peripheral_state) ==> r matches Err(
            DurabilityError::Corrupt(_),
        ),
        crate::peripheral::cursors_valid(checkpoint@.peripheral_state) && !retermable(checkpoint@) ==> r matches Err(
            DurabilityError::PayloadTooLarge { .. },
        ),
{
    let records = reterm_records(checkpoint.causal_state.as_slice(), term);
    let receipts = checkpoint.receipts.with_term(term);
    let mut peripheral = checkpoint.peripheral_state.copy();
    peripheral.reterm(term);
    proof {
        let a = checkpoint@.peripheral_state;
        let b = peripheral@;
        assert(forall|i: int| 0 <= i < b.len() ==> (#[trigger] b[i]).channel == a[i].channel);
        assert(crate::peripheral::cursors_valid(b) == crate::peripheral::cursors_valid(a)) by {
            if crate::peripheral::cursors_valid(a) {
                assert forall|i: int, j: int| 0 <= i < j < b.len() implies (#[trigger] b[i]).channel < (
                #[trigger] b[j]).channel by {
                    assert(a[i].channel < a[j].channel);
                }
            }
            if crate::peripheral::cursors_valid(b) {
                assert forall|i: int, j: int| 0 <= i < j < a.len() implies (#[trigger] a[i]).channel < (
                #[trigger] a[j]).channel by {
                    assert(b[i].channel < b[j].channel);
                }
            }
        }
    }
    let payload = ShardCheckpointPayload::new(
        checkpoint.brain_id,
        checkpoint.shard_id,
        checkpoint.topology_generation,
        checkpoint.partition_generation,
        term,
        checkpoint.committed_tag,
        checkpoint.applied_tag,
        checkpoint.durable_wal_sequence,
        crate::wal::copy_bytes(checkpoint.biological_state.as_slice()),
        records,
        crate::wal::copy_bytes(checkpoint.channel_state.as_slice()),
        receipts,
    );
    let payload = match payload.with_peripheral_state(peripheral) {
        Ok(p) => p,
        Err(e) => {
            return Err(e);
        },
    };
    proof {
        lemma_retermed_material_len(checkpoint@, payload@, term);
    }
    payload.seal()
}

fn copy_checkpoint(o: &Option<ShardCheckpointPayload>) -> (r: Option<ShardCheckpointPayload>)
    ensures
        opt_checkpoint_view(r) == opt_checkpoint_view(*o),
        opt_payload_wf(*o) ==> opt_payload_wf(r),
{
    match o {
        None => None,
        Some(p) => Some(p.duplicate()),
    }
}

/// Whether two cursor lists are equal.
fn cursors_equal(a: &Vec<crate::peripheral::PeripheralCursor>, b: &Vec<crate::peripheral::PeripheralCursor>) -> (r:
    bool)
    ensures
        r == (a@ == b@),
{
    if a.len() != b.len() {
        return false;
    }
    let mut i: usize = 0;
    while i < a.len()
        invariant
            i <= a@.len(),
            a@.len() == b@.len(),
            forall|k: int| 0 <= k < i ==> a@[k] == b@[k],
        decreases a@.len() - i,
    {
        if a[i] != b[i] {
            return false;
        }
        i = i + 1;
    }
    assert(a@ =~= b@);
    true
}

/// Whether two receipt lists are equal.
fn receipts_equal(a: &Vec<crate::receipts::DurableReceipt>, b: &Vec<crate::receipts::DurableReceipt>) -> (r: bool)
    ensures
        r == (a@ == b@),
{
    if a.len() != b.len() {
        return false;
    }
    let mut i: usize = 0;
    while i < a.len()
        invariant
            i <= a@.len(),
            a@.len() == b@.len(),
            forall|k: int| 0 <= k < i ==> a@[k] == b@[k],
        decreases a@.len() - i,
    {
        if a[i] != b[i] {
            return false;
        }
        i = i + 1;
    }
    assert(a@ =~= b@);
    true
}

impl ShardCheckpointPayload {
    /// Whether two payloads hold the same checkpoint.
    pub fn same_as(&self, other: &ShardCheckpointPayload) -> (r: bool)
        ensures
            r == (self@ == other@),
    {
        let r = self.schema_version == other.schema_version && self.brain_id == other.brain_id
            && self.shard_id == other.shard_id && self.topology_generation == other.topology_generation
            && self.partition_generation == other.partition_generation && self.lease_term == other.lease_term
            && self.committed_tag == other.committed_tag && self.applied_tag == other.applied_tag
            && self.durable_wal_sequence == other.durable_wal_sequence && self.state_digest
            == other.state_digest && crate::wal::bytes_equal(
            self.biological_state.as_slice(),
            other.biological_state.as_slice(),
        ) && crate::wal::bytes_equal(self.channel_state.as_slice(), other.channel_state.as_slice())
            && same_records(&self.causal_state, &other.causal_state) && cursors_equal(
            &self.peripheral_state.cursors,
            &other.peripheral_state.cursors,
        ) && receipts_equal(self.receipts.receipts(), other.receipts.receipts());
        r
    }

    /// A field-for-field copy.
    pub fn duplicate(&self) -> (r: ShardCheckpointPayload)
        ensures
            r@ == self@,
            self.wf() ==> r.wf(),
    {
        ShardCheckpointPayload {
            schema_version: self.schema_version,
            brain_id: self.brain_id,
            shard_id: self.shard_id,
            topology_generation: self.topology_generation,
            partition_generation: self.partition_generation,
            lease_term: self.lease_term,
            committed_tag: self.committed_tag,
            applied_tag: self.applied_tag,
            durable_wal_sequence: self.durable_wal_sequence,
            biological_state: crate::wal::copy_bytes(self.biological_state.as_slice()),
            causal_state: copy_records(&self.causal_state),
            channel_state: crate::wal::copy_bytes(self.channel_state.as_slice()),
            peripheral_state: self.peripheral_state.copy(),
            receipts: self.receipts.copy(),
            state_digest: self.state_digest,
        }
    }
}

impl WarmReplicaDocument {
    /// The embedded checkpoints hold well-formed receipts.
    pub open spec fn wf(&self) -> bool {
        opt_payload_wf(self.checkpoint) && opt_payload_wf(self.pending_checkpoint)
    }

    /// The document of a replica that has persisted nothing yet.
    pub fn empty(term: LeaseTerm) -> (d: WarmReplicaDocument)
        ensures
            d.wf(),
            d@ == (WarmReplicaDocumentView {
                schema_version: SchemaVersion(1),
                term,
                records: Seq::empty(),
                checkpoint: None,
                pending_checkpoint: None,
            }),
    {
        let d = WarmReplicaDocument {
            schema_version: SchemaVersion::current(),
            term,
            records: Vec::new(),
            checkpoint: None,
            pending_checkpoint: None,
        };
        assert(records_view(d.records@) =~= Seq::<WalRecordView>::empty());
        d
    }

    /// Checks a document read by a replica of `term`: the schema must be
    /// current and the document must belong to `term`.
    pub fn check_readable(&self, term: LeaseTerm) -> (r: Result<(), DurabilityError>)
        ensures
            r is Ok <==> self.schema_version.0 == 1 && self.term == term,
            self.schema_version.0 != 1 ==> r matches Err(DurabilityError::Corrupt(_)),
            self.schema_version.0 == 1 && self.term != term ==> (r matches Err(
                DurabilityError::StaleTerm { expected, received },
            ) && expected == self.term && received == term),
    {
        if self.schema_version.0 != 1 {
            return Err(DurabilityError::Corrupt(String::from_str("unsupported warm replica schema")));
        }
        if self.term != term {
            return Err(DurabilityError::StaleTerm { expected: self.term, received: term });
        }
        Ok(())
    }

    /// The term a persisted document belongs to, after checking its schema
    /// and its replicated prefix.
    pub fn persisted_term(&self) -> (r: Result<LeaseTerm, DurabilityError>)
        ensures
            r is Ok <==> self.schema_version.0 == 1 && replica_fold(
                self.term,
                Seq::empty(),
                records_view(self.records@),
            ) is Some,
            self.schema_version.0 != 1 ==> r matches Err(DurabilityError::Corrupt(_)),
            self.schema_version.0 == 1 ==> (r matches Err(e) ==> crate::replica::fold_failure(
                self.term,
                Seq::empty(),
                records_view(self.records@),
            ) matches Some(f) && crate::replica::refusal_error(e, self.term, f.0, f.1)),
            r matches Ok(t) ==> t == self.term,
    {
        if self.schema_version.0 != 1 {
            return Err(DurabilityError::Corrupt(String::from_str("unsupported warm replica schema")));
        }
        match self.replica() {
            Ok(_) => Ok(self.term),
            Err(e) => Err(e),
        }
    }

    /// The replica that the document's records form under its term.
    pub fn replica(&self) -> (r: Result<WarmReplica, DurabilityError>)
        ensures
            r is Ok <==> replica_fold(self.term, Seq::empty(), records_view(self.records@)) is Some,
            r matches Ok(w) ==> w.wf() && w@.term == self.term && w@.records == replica_fold(
                self.term,
                Seq::empty(),
                records_view(self.records@),
            )->0,
            r matches Err(e) ==> crate::replica::fold_failure(self.term, Seq::empty(), records_view(self.records@))
                matches Some(f) && crate::replica::refusal_error(e, self.term, f.0, f.1),
    {
        WarmReplica::from_records(self.term, copy_records(&self.records))
    }

    /// Replicates one record: the document's prefix is replayed into a
    /// replica and the record is offered to it; the document then holds the
    /// replica's records.
    pub fn apply(&mut self, record: WalRecord) -> (r: Result<(), DurabilityError>)
        requires
            old(self).wf(),
        ensures
            final(self).wf(),
            r is Ok <==> replica_fold(
                old(self).term,
                Seq::empty(),
                records_view(old(self).records@).push(record@),
            ) is Some,
            r is Err ==> final(self)@ == old(self)@,
            r matches Err(e) ==> crate::replica::fold_failure(
                old(self).term,
                Seq::empty(),
                records_view(old(self).records@).push(record@),
            ) matches Some(f) && crate::replica::refusal_error(e, old(self).term, f.0, f.1),
            r is Ok ==> replica_fold(old(self).term, Seq::empty(), records_view(old(self).records@))
                is Some && final(self)@ == (WarmReplicaDocumentView {
                records: replica_fold(
                    old(self).term,
                    Seq::empty(),
                    records_view(old(self).records@).push(record@),
                )->0,
                ..old(self)@
            }),
    {
        proof {
            lemma_fold_push(self.term, records_view(self.records@), record@);
            lemma_fold_none_append(self.term, Seq::empty(), records_view(self.records@), seq![record@]);
            lemma_fold_failure_append(self.term, Seq::empty(), records_view(self.records@), seq![record@]);
            assert(records_view(self.records@) + seq![record@] =~= records_view(self.records@).push(record@));
        }
        let mut warm = match self.replica() {
            Ok(w) => w,
            Err(e) => {
                return Err(e);
            },
        };
        let ghost before = warm@.records;
        proof {
            let one = seq![record@];
            assert(one[0] == record@);
            assert(one.drop_first() =~= Seq::<WalRecordView>::empty());
        }
        let ghost rv = record@;
        match warm.apply(record) {
            Ok(()) => {},
            Err(e) => {
                proof {
                    let one = seq![rv];
                    assert(one.drop_first() =~= Seq::<WalRecordView>::empty());
                    assert(crate::replica::fold_failure(self.term, before, one) == Some((before, rv)));
                }
                return Err(e);
            },
        }
        proof {
            lemma_fold_push(self.term, records_view(self.records@), record@);
            let one = seq![record@];
            assert(one[0] == record@);
            assert(one.drop_first() =~= Seq::<WalRecordView>::empty());
            assert(replica_fold(self.term, before, one.drop_first()) == Some(before));
            assert(replica_fold(self.term, before.push(record@), one.drop_first()) == Some(before.push(record@)));
        }
        self.records = copy_records(warm.records());
        Ok(())
    }

    /// Prepares a complete boundary before the active owner publishes it.
    /// The checkpoint must verify, carry this replica's term, and extend the
    /// replicated prefix.
    pub fn prepare_checkpoint(&mut self, checkpoint: &ShardCheckpointPayload) -> (r: Result<
        (),
        DurabilityError,
    >)
        requires
            old(self).wf(),
            checkpoint.wf(),
        ensures
            final(self).wf(),
            r is Ok <==> checkpoint_verifies(checkpoint@) && checkpoint@.lease_term == old(self).term
                && prefix_of(old(self)@.records, checkpoint@.causal_state),
            checkpoint_verifies(checkpoint@) && checkpoint@.lease_term != old(self).term ==> (r matches Err(
                DurabilityError::StaleTerm { expected, received },
            ) && expected == old(self).term && received == checkpoint@.lease_term),
            checkpoint_verifies(checkpoint@) && checkpoint@.lease_term == old(self).term && !prefix_of(
                old(self)@.records,
                checkpoint@.causal_state,
            ) ==> (r matches Err(DurabilityError::ReplicaSequenceGap { expected, received }) && expected
                == old(self)@.records.len() && received == checkpoint@.causal_state.len()),
            r is Err ==> final(self)@ == old(self)@,
            r is Ok ==> final(self)@ == (WarmReplicaDocumentView {
                pending_checkpoint: Some(checkpoint@),
                ..old(self)@
            }),
    {
        match checkpoint.verify() {
            Ok(()) => {},
            Err(e) => {
                return Err(e);
            },
        }
        if checkpoint.lease_term != self.term {
            return Err(
                DurabilityError::StaleTerm { expected: self.term, received: checkpoint.lease_term },
            );
        }
        if !is_prefix(&self.records, &checkpoint.causal_state) {
            return Err(
                DurabilityError::ReplicaSequenceGap {
                    expected: self.records.len() as u64,
                    received: checkpoint.causal_state.len() as u64,
                },
            );
        }
        self.pending_checkpoint = Some(checkpoint.duplicate());
        Ok(())
    }

    /// Commits the prepared boundary once the active owner has published the
    /// same WAL position.
    pub fn finalize_checkpoint(&mut self, sequence: Option<u64>) -> (r: Result<(), DurabilityError>)
        requires
            old(self).wf(),
        ensures
            final(self).wf(),
            r is Ok <==> (old(self)@.pending_checkpoint matches Some(p) && p.durable_wal_sequence
                == sequence),
            r is Err ==> (r matches Err(DurabilityError::Corrupt(_)) && final(self)@ == old(self)@),
            r is Ok ==> final(self)@ == (WarmReplicaDocumentView {
                checkpoint: old(self)@.pending_checkpoint,
                pending_checkpoint: None,
                ..old(self)@
            }),
    {
        match &self.pending_checkpoint {
            None => Err(
                DurabilityError::Corrupt(
                    String::from_str("warm checkpoint finalization has no prepared state"),
                ),
            ),
            Some(pending) => {
                if pending.durable_wal_sequence != sequence {
                    return Err(
                        DurabilityError::Corrupt(
                            String::from_str(
                                "warm checkpoint finalization sequence differs from the active boundary",
                            ),
                        ),
                    );
                }
                let p = pending.duplicate();
                self.checkpoint = Some(p);
                self.pending_checkpoint = None;
                Ok(())
            },
        }
    }

    /// Discards a prepared boundary; idempotent.
    pub fn rollback_pending(&mut self)
        requires
            old(self).wf(),
        ensures
            final(self).wf(),
            final(self)@ == (WarmReplicaDocumentView { pending_checkpoint: None, ..old(self)@ }),
    {
        self.pending_checkpoint = None;
    }

    /// The last acknowledged boundary, checked.
    pub fn checkpoint(&self) -> (r: Result<Option<ShardCheckpointPayload>, DurabilityError>)
        requires
            self.wf(),
        ensures
            r is Ok <==> (self@.checkpoint matches Some(p) ==> checkpoint_verifies(p)),
            r matches Ok(c) ==> opt_checkpoint_view(c) == self@.checkpoint && opt_payload_wf(c),
    {
        match &self.checkpoint {
            None => Ok(None),
            Some(p) => {
                match p.verify() {
                    Ok(()) => Ok(Some(p.duplicate())),
                    Err(e) => Err(e),
                }
            },
        }
    }

    /// The best state candidate for owner recovery: the prepared boundary if
    /// there is one, else the acknowledged one, checked.
    pub fn recovery_checkpoint(&self) -> (r: Result<Option<ShardCheckpointPayload>, DurabilityError>)
        requires
            self.wf(),
        ensures
            ({
                let chosen = if self@.pending_checkpoint is Some {
                    self@.pending_checkpoint
                } else {
                    self@.checkpoint
                };
                &&& r is Ok <==> (chosen matches Some(p) ==> checkpoint_verifies(p))
                &&& r matches Ok(c) ==> opt_checkpoint_view(c) == chosen && opt_payload_wf(c)
            }),
    {
        let chosen = match &self.pending_checkpoint {
            Some(p) => Some(p),
            None => match &self.checkpoint {
                Some(p) => Some(p),
                None => None,
            },
        };
        match chosen {
            None => Ok(None),
            Some(p) => {
                match p.verify() {
                    Ok(()) => Ok(Some(p.duplicate())),
                    Err(e) => Err(e),
                }
            },
        }
    }

    /// The sequence of the last replicated record, after checking the prefix.
    pub fn durable_sequence(&self) -> (r: Result<Option<u64>, DurabilityError>)
        ensures
            r is Ok <==> replica_fold(self.term, Seq::empty(), records_view(self.records@)) is Some,
            r matches Err(e) ==> crate::replica::fold_failure(self.term, Seq::empty(), records_view(self.records@))
                matches Some(f) && crate::replica::refusal_error(e, self.term, f.0, f.1),
            r matches Ok(s) ==> ({
                let rs = replica_fold(self.term, Seq::empty(), records_view(self.records@))->0;
                s == if rs.len() == 0 {
                    None
                } else {
                    Some((rs.len() - 1) as u64)
                }
            }),
    {
        match self.replica() {
            Ok(w) => Ok(w.durable_sequence()),
            Err(e) => Err(e),
        }
    }

    /// Re-signs the replicated prefix and both checkpoint slots under a
    /// strictly newer term.
    #[verifier::rlimit(40)]
    pub fn reissue_term(&mut self, term: LeaseTerm) -> (r: Result<(), DurabilityError>)
        requires
            old(self).wf(),
        ensures
            final(self).wf(),
            term.0 <= old(self).term.0 ==> (r matches Err(DurabilityError::StaleTerm { expected, received })
                && expected == old(self).term && received == term),
            r is Ok <==> term.0 > old(self).term.0 && (old(self)@.checkpoint matches Some(c) ==> retermable(c))
                && (old(self)@.pending_checkpoint matches Some(c) ==> retermable(c)),
            r is Err ==> final(self)@ == old(self)@,
            r is Ok ==> {
                &&& term.0 > old(self).term.0
                &&& final(self).term == term
                &&& final(self).schema_version == old(self).schema_version
                &&& is_retermed(old(self)@.records, final(self)@.records, term)
                &&& (old(self)@.checkpoint is None <==> final(self)@.checkpoint is None)
                &&& (old(self)@.checkpoint matches Some(p) ==> retermed_checkpoint(
                    p,
                    final(self)@.checkpoint->0,
                    term,
                ))
                &&& (old(self)@.pending_checkpoint is None <==> final(self)@.pending_checkpoint is None)
                &&& (old(self)@.pending_checkpoint matches Some(p) ==> retermed_checkpoint(
                    p,
                    final(self)@.pending_checkpoint->0,
                    term,
                ))
            },
    {
        if term.0 <= self.term.0 {
            return Err(DurabilityError::StaleTerm { expected: self.term, received: term });
        }
        let records = reterm_records(self.records.as_slice(), term);
        let checkpoint = match &self.checkpoint {
            None => None,
            Some(p) => match reterm_checkpoint(p, term) {
                Ok(q) => Some(q),
                Err(e) => {
                    return Err(e);
                },
            },
        };
        let pending = match &self.pending_checkpoint {
            None => None,
            Some(p) => match reterm_checkpoint(p, term) {
                Ok(q) => Some(q),
                Err(e) => {
                    return Err(e);
                },
            },
        };
        self.term = term;
        self.records = records;
        self.checkpoint = checkpoint;
        self.pending_checkpoint = pending;
        Ok(())
    }

    /// Rolls the replicated prefix back to the active sequence after a failed
    /// two-file commit; a prepared boundary at another position is dropped.
    pub fn truncate_to(&mut self, sequence: Option<u64>) -> (r: Result<(), DurabilityError>)
        requires
            old(self).wf(),
        ensures
            final(self).wf(),
            ({
                let keep: int = match sequence {
                    None => 0,
                    Some(s) => if s == u64::MAX { u64::MAX as int } else { s + 1 },
                };
                &&& r is Ok <==> keep <= old(self)@.records.len()
                &&& r is Err ==> (r matches Err(DurabilityError::ReplicaSequenceGap { expected, received })
                    && expected == old(self)@.records.len() && received == keep) && final(self)@ == old(self)@
                &&& r is Ok ==> final(self)@ == (WarmReplicaDocumentView {
                    records: old(self)@.records.take(keep),
                    pending_checkpoint: if old(self)@.pending_checkpoint matches Some(p)
                        && p.durable_wal_sequence != sequence {
                        None
                    } else {
                        old(self)@.pending_checkpoint
                    },
                    ..old(self)@
                })
            }),
    {
        let keep: u64 = match sequence {
            None => 0,
            Some(s) => s.saturating_add(1),
        };
        if keep > self.records.len() as u64 {
            return Err(
                DurabilityError::ReplicaSequenceGap {
                    expected: self.records.len() as u64,
                    received: keep,
                },
            );
        }
        let ghost before = records_view(self.records@);
        self.records.truncate(keep as usize);
        assert(records_view(self.records@) =~= before.take(keep as int));
        let drop_pending = match &self.pending_checkpoint {
            Some(p) => p.durable_wal_sequence != sequence,
            None => false,
        };
        if drop_pending {
            self.pending_checkpoint = None;
        }
        Ok(())
    }
}

/// `a` and `b` hold the same record wherever both hold one.
pub open spec fn agree_where_both(a: Seq<WalRecordView>, b: Seq<WalRecordView>) -> bool {
    forall|i: int| 0 <= i < a.len() && i < b.len() ==> a[i] == b[i]
}

/// Whether `a` and `b` hold the same record wherever both hold one.
pub fn agree_on_common_prefix(a: &Vec<WalRecord>, b: &Vec<WalRecord>) -> (r: bool)
    ensures
        r == agree_where_both(records_view(a@), records_view(b@)),
{
    let ghost av = records_view(a@);
    let ghost bv = records_view(b@);
    let mut i: usize = 0;
    while i < a.len() && i < b.len()
        invariant
            av == records_view(a@),
            bv == records_view(b@),
            i <= a@.len(),
            forall|k: int| 0 <= k < i && k < b@.len() ==> av[k] == bv[k],
        decreases a@.len() - i,
    {
        if !a[i].same_as(&b[i]) {
            assert(av[i as int] != bv[i as int]);
            return false;
        }
        i = i + 1;
    }
    true
}

/// The WAL prefix that the active owner vouches for: the offered seed, or
/// the records of its checkpoint when no seed is offered.
pub open spec fn effective_seed(seed: Seq<WalRecordView>, checkpoint: Option<ShardCheckpointView>) -> Seq<
    WalRecordView,
> {
    if seed.len() == 0 && checkpoint is Some {
        checkpoint->0.causal_state
    } else {
        seed
    }
}

/// Settling a prepared boundary against the active prefix: committed when the
/// prefixes match, kept when the active owner vouches for no prefix at all
/// (neither a seed nor a checkpoint), discarded (and the WAL rolled back) when
/// the active owner is behind it, refused otherwise.
pub open spec fn settle_pending(d: WarmReplicaDocumentView, seed: Seq<WalRecordView>, vouched: bool) -> Option<
    WarmReplicaDocumentView,
> {
    match d.pending_checkpoint {
        None => Some(d),
        Some(p) => if !checkpoint_verifies(p) {
            None
        } else if seed == p.causal_state {
            Some(WarmReplicaDocumentView { checkpoint: Some(p), pending_checkpoint: None, ..d })
        } else if !vouched {
            Some(d)
        } else if prefix_of(seed, p.causal_state) {
            Some(WarmReplicaDocumentView { records: seed, pending_checkpoint: None, ..d })
        } else {
            None
        },
    }
}

/// The acknowledged boundary verifies and lies on the same line as the WAL.
pub open spec fn acknowledged_consistent(d: WarmReplicaDocumentView) -> bool {
    match d.checkpoint {
        None => true,
        Some(e) => checkpoint_verifies(e) && (prefix_of(e.causal_state, d.records) || prefix_of(
            d.records,
            e.causal_state,
        )),
    }
}

/// Dropping a replicated suffix that the active owner never committed, and
/// refusing a replica that disagrees with the active prefix.
pub open spec fn repair_ahead(
    d: WarmReplicaDocumentView,
    term: LeaseTerm,
    seed: Seq<WalRecordView>,
    active: bool,
) -> Option<WarmReplicaDocumentView> {
    if d.records.len() == 0 || (seed.len() == 0 && !active) {
        Some(d)
    } else {
        match replica_fold(term, Seq::empty(), d.records) {
            None => None,
            Some(held) => if !agree_where_both(held, seed) {
                None
            } else if held.len() > seed.len() {
                if !prefix_of(seed, d.records) {
                    None
                } else {
                    Some(
                        WarmReplicaDocumentView {
                            records: seed,
                            checkpoint: if d.checkpoint matches Some(c) && c.causal_state.len()
                                > seed.len() {
                                None
                            } else {
                                d.checkpoint
                            },
                            ..d
                        },
                    )
                }
            } else {
                Some(d)
            },
        }
    }
}

/// Catching up with a longer active prefix by replicating it.
pub open spec fn fill_from_seed(d: WarmReplicaDocumentView, term: LeaseTerm, seed: Seq<WalRecordView>) -> Option<
    WarmReplicaDocumentView,
> {
    if d.records.len() < seed.len() {
        match replica_fold(term, Seq::empty(), d.records) {
            None => None,
            Some(held) => match replica_fold(term, held, seed) {
                None => None,
                Some(rs) => Some(WarmReplicaDocumentView { records: rs, ..d }),
            },
        }
    } else {
        Some(d)
    }
}

/// Adopting the active owner's checkpoint as the acknowledged boundary.
pub open spec fn adopt_active(
    d: WarmReplicaDocumentView,
    term: LeaseTerm,
    seed: Seq<WalRecordView>,
    checkpoint: Option<ShardCheckpointView>,
) -> Option<WarmReplicaDocumentView> {
    match checkpoint {
        None => Some(d),
        Some(c) => if checkpoint_verifies(c) && c.lease_term == term && c.causal_state == seed {
            Some(WarmReplicaDocumentView { checkpoint: Some(c), ..d })
        } else {
            None
        },
    }
}

/// The document after reconciling `d` with the active owner's prefix `seed`
/// and checkpoint, or `None` when they cannot be reconciled.
pub open spec fn reconciled(
    d: WarmReplicaDocumentView,
    term: LeaseTerm,
    seed: Seq<WalRecordView>,
    checkpoint: Option<ShardCheckpointView>,
) -> Option<WarmReplicaDocumentView> {
    let active = effective_seed(seed, checkpoint);
    if seed.len() == 0 && (checkpoint matches Some(c) && !checkpoint_verifies(c)) {
        None
    } else if d.term != term {
        None
    } else if replica_fold(term, Seq::empty(), d.records) is None {
        None
    } else {
        reconcile_steps(d, term, active, checkpoint)
    }
}

/// The steps of [`reconciled`] once the document is known to be readable:
/// settle the prepared boundary, check the acknowledged one, repair a suffix
/// the active owner never committed, catch up, adopt the active checkpoint.
pub open spec fn reconcile_steps(
    d: WarmReplicaDocumentView,
    term: LeaseTerm,
    active: Seq<WalRecordView>,
    checkpoint: Option<ShardCheckpointView>,
) -> Option<WarmReplicaDocumentView> {
    match settle_pending(d, active, active.len() > 0 || checkpoint is Some) {
        None => None,
        Some(d1) => if !acknowledged_consistent(d1) {
            None
        } else {
            match repair_ahead(d1, term, active, checkpoint is Some) {
                None => None,
                Some(d2) => match fill_from_seed(d2, term, active) {
                    None => None,
                    Some(d3) => adopt_active(d3, term, active, checkpoint),
                },
            }
        },
    }
}

/// Offers `records` in order to `warm`.
fn offer_all(warm: &mut WarmReplica, records: &Vec<WalRecord>) -> (r: Result<(), DurabilityError>)
    requires
        old(warm).wf(),
    ensures
        final(warm).wf(),
        final(warm)@.term == old(warm)@.term,
        r is Ok <==> replica_fold(old(warm)@.term, old(warm)@.records, records_view(records@)) is Some,
        r is Ok ==> final(warm)@.records == replica_fold(
            old(warm)@.term,
            old(warm)@.records,
            records_view(records@),
        )->0,
{
    let ghost all = records_view(records@);
    let ghost term = old(warm)@.term;
    let ghost start = old(warm)@.records;
    let mut i: usize = 0;
    assert(all.subrange(0, all.len() as int) =~= all);
    while i < records.len()
        invariant
            i <= records@.len(),
            all == records_view(records@),
            warm.wf(),
            warm@.term == term,
            term == old(warm)@.term,
            start == old(warm)@.records,
            replica_fold(term, start, all) == replica_fold(
                term,
                warm@.records,
                all.subrange(i as int, all.len() as int),
            ),
        decreases records@.len() - i,
    {
        let ghost rest = all.subrange(i as int, all.len() as int);
        assert(rest[0] == records@[i as int]@);
        assert(rest.drop_first() =~= all.subrange(i + 1, all.len() as int));
        let record = records[i].copy();
        match warm.apply(record) {
            Ok(()) => {},
            Err(e) => {
                assert(replica_fold(term, warm@.records, rest) is None);
                return Err(e);
            },
        }
        i = i + 1;
    }
    assert(all.subrange(i as int, all.len() as int) =~= Seq::<WalRecordView>::empty());
    Ok(())
}

impl WarmReplicaDocument {
    /// A field-for-field copy.
    pub fn duplicate(&self) -> (r: WarmReplicaDocument)
        ensures
            r@ == self@,
            self.wf() ==> r.wf(),
    {
        WarmReplicaDocument {
            schema_version: self.schema_version,
            term: self.term,
            records: copy_records(&self.records),
            checkpoint: copy_checkpoint(&self.checkpoint),
            pending_checkpoint: copy_checkpoint(&self.pending_checkpoint),
        }
    }

    fn settle_pending_step(&mut self, seed: &Vec<WalRecord>, vouched: bool) -> (r: Result<(), DurabilityError>)
        requires
            old(self).wf(),
            !vouched ==> seed@.len() == 0,
        ensures
            final(self).wf(),
            r is Ok <==> settle_pending(old(self)@, records_view(seed@), vouched) is Some,
            r is Ok ==> final(self)@ == settle_pending(old(self)@, records_view(seed@), vouched)->0,
    {
        let pending = match &self.pending_checkpoint {
            None => {
                return Ok(());
            },
            Some(p) => p.duplicate(),
        };
        match pending.verify() {
            Ok(()) => {},
            Err(e) => {
                return Err(e);
            },
        }
        if same_records(seed, &pending.causal_state) {
            self.checkpoint = Some(pending);
            self.pending_checkpoint = None;
            Ok(())
        } else if !vouched {
            Ok(())
        } else if is_prefix(seed, &pending.causal_state) {
            self.records = copy_records(seed);
            self.pending_checkpoint = None;
            Ok(())
        } else {
            Err(
                DurabilityError::Corrupt(
                    String::from_str("warm pending checkpoint does not match the active prefix"),
                ),
            )
        }
    }

    fn check_acknowledged(&self) -> (r: Result<(), DurabilityError>)
        requires
            self.wf(),
        ensures
            r is Ok <==> acknowledged_consistent(self@),
    {
        match &self.checkpoint {
            None => Ok(()),
            Some(existing) => {
                match existing.verify() {
                    Ok(()) => {},
                    Err(e) => {
                        return Err(e);
                    },
                }
                if !is_prefix(&existing.causal_state, &self.records) && !is_prefix(
                    &self.records,
                    &existing.causal_state,
                ) {
                    return Err(
                        DurabilityError::Corrupt(
                            String::from_str("warm checkpoint and WAL records diverge"),
                        ),
                    );
                }
                Ok(())
            },
        }
    }

    fn repair_ahead_step(&mut self, term: LeaseTerm, seed: &Vec<WalRecord>, active: bool) -> (r: Result<
        (),
        DurabilityError,
    >)
        requires
            old(self).wf(),
        ensures
            final(self).wf(),
            r is Ok <==> repair_ahead(old(self)@, term, records_view(seed@), active) is Some,
            r is Ok ==> final(self)@ == repair_ahead(old(self)@, term, records_view(seed@), active)->0,
    {
        if self.records.len() == 0 || (seed.len() == 0 && !active) {
            return Ok(());
        }
        let held = match WarmReplica::from_records(term, copy_records(&self.records)) {
            Ok(w) => w,
            Err(e) => {
                return Err(e);
            },
        };
        if held.applied() > seed.len() {
            if !is_prefix(seed, &self.records) {
                return Err(
                    DurabilityError::Corrupt(
                        String::from_str(
                            "warm replica is ahead of the active checkpoint but diverges from its prefix",
                        ),
                    ),
                );
            }
            if !agree_on_common_prefix(held.records(), seed) {
                return Err(
                    DurabilityError::Corrupt(
                        String::from_str("warm replica prefix diverges from active checkpoint"),
                    ),
                );
            }
            self.records = copy_records(seed);
            let ahead = match &self.checkpoint {
                Some(c) => c.causal_state.len() > seed.len(),
                None => false,
            };
            if ahead {
                self.checkpoint = None;
            }
            return Ok(());
        }
        if !agree_on_common_prefix(held.records(), seed) {
            return Err(
                DurabilityError::Corrupt(
                    String::from_str("warm replica prefix diverges from active checkpoint"),
                ),
            );
        }
        Ok(())
    }

    fn fill_step(&mut self, term: LeaseTerm, seed: &Vec<WalRecord>) -> (r: Result<(), DurabilityError>)
        requires
            old(self).wf(),
        ensures
            final(self).wf(),
            r is Ok <==> fill_from_seed(old(self)@, term, records_view(seed@)) is Some,
            r is Ok ==> final(self)@ == fill_from_seed(old(self)@, term, records_view(seed@))->0,
    {
        if self.records.len() < seed.len() {
            let mut warm = match WarmReplica::from_records(term, copy_records(&self.records)) {
                Ok(w) => w,
                Err(e) => {
                    return Err(e);
                },
            };
            match offer_all(&mut warm, seed) {
                Ok(()) => {},
                Err(e) => {
                    return Err(e);
                },
            }
            self.records = copy_records(warm.records());
        }
        Ok(())
    }

    fn adopt_step(&mut self, term: LeaseTerm, seed: &Vec<WalRecord>, checkpoint: Option<ShardCheckpointPayload>) -> (r:
        Result<(), DurabilityError>)
        requires
            old(self).wf(),
            opt_payload_wf(checkpoint),
        ensures
            final(self).wf(),
            r is Ok <==> adopt_active(old(self)@, term, records_view(seed@), opt_checkpoint_view(checkpoint)) is Some,
            r is Ok ==> final(self)@ == adopt_active(
                old(self)@,
                term,
                records_view(seed@),
                opt_checkpoint_view(checkpoint),
            )->0,
    {
        match checkpoint {
            None => Ok(()),
            Some(c) => {
                match c.verify() {
                    Ok(()) => {},
                    Err(e) => {
                        return Err(e);
                    },
                }
                if c.lease_term != term {
                    return Err(DurabilityError::StaleTerm { expected: term, received: c.lease_term });
                }
                if !same_records(&c.causal_state, seed) {
                    return Err(
                        DurabilityError::Corrupt(
                            String::from_str("active checkpoint does not match the supplied WAL seed"),
                        ),
                    );
                }
                self.checkpoint = Some(c);
                Ok(())
            },
        }
    }

    fn run_steps(&mut self, term: LeaseTerm, seed: &Vec<WalRecord>, checkpoint: Option<ShardCheckpointPayload>) -> (r:
        Result<(), DurabilityError>)
        requires
            old(self).wf(),
            opt_payload_wf(checkpoint),
        ensures
            final(self).wf(),
            r is Ok <==> reconcile_steps(old(self)@, term, records_view(seed@), opt_checkpoint_view(checkpoint)) is Some,
            r is Ok ==> final(self)@ == reconcile_steps(
                old(self)@,
                term,
                records_view(seed@),
                opt_checkpoint_view(checkpoint),
            )->0,
    {
        let active = checkpoint.is_some();
        match self.settle_pending_step(seed, seed.len() > 0 || active) {
            Ok(()) => {},
            Err(e) => {
                return Err(e);
            },
        }
        match self.check_acknowledged() {
            Ok(()) => {},
            Err(e) => {
                return Err(e);
            },
        }
        match self.repair_ahead_step(term, seed, active) {
            Ok(()) => {},
            Err(e) => {
                return Err(e);
            },
        }
        match self.fill_step(term, seed) {
            Ok(()) => {},
            Err(e) => {
                return Err(e);
            },
        }
        self.adopt_step(term, seed, checkpoint)
    }

    /// Reconciles a document read by a replica of `term` with the active
    /// owner's WAL prefix `seed` and, optionally, its current checkpoint. A
    /// prepared boundary is committed only when the active owner has the same
    /// prefix; if the active owner is still behind it, the preparation is
    /// discarded, also when the active owner's checkpoint holds an empty WAL.
    /// With neither a seed nor a checkpoint from the active owner, the warm
    /// state is kept for a replacement owner to inspect.
    pub fn reconcile(
        &mut self,
        term: LeaseTerm,
        seed: Vec<WalRecord>,
        checkpoint: Option<ShardCheckpointPayload>,
    ) -> (r: Result<(), DurabilityError>)
        requires
            old(self).wf(),
            opt_payload_wf(checkpoint),
        ensures
            final(self).wf(),
            r is Ok <==> reconciled(old(self)@, term, records_view(seed@), opt_checkpoint_view(checkpoint)) is Some,
            r is Ok ==> final(self)@ == reconciled(
                old(self)@,
                term,
                records_view(seed@),
                opt_checkpoint_view(checkpoint),
            )->0,
            r is Err ==> final(self)@ == old(self)@,
            ({
                let active = effective_seed(records_view(seed@), opt_checkpoint_view(checkpoint));
                &&& (seed@.len() > 0 || checkpoint is None || checkpoint_verifies(checkpoint->0@))
                    && old(self).term != term ==> (r matches Err(
                    DurabilityError::StaleTerm { expected, received },
                ) && expected == old(self).term && received == term)
                &&& r is Ok ==> final(self).term == old(self).term && final(self).schema_version
                    == old(self).schema_version
                &&& r is Ok && old(self)@.pending_checkpoint is Some && (active.len() > 0 || checkpoint is Some)
                    ==> final(self)@.pending_checkpoint is None
                &&& r is Ok && old(self)@.pending_checkpoint is Some && active.len() == 0 && checkpoint is None
                    && old(self)@.pending_checkpoint->0.causal_state.len() > 0
                    ==> final(self)@.pending_checkpoint == old(self)@.pending_checkpoint
                &&& r is Ok && checkpoint is None && old(self)@.pending_checkpoint is Some
                    && active == old(self)@.pending_checkpoint->0.causal_state
                    ==> final(self)@.checkpoint == old(self)@.pending_checkpoint
                &&& r is Ok && checkpoint is Some ==> final(self)@.checkpoint == Some(checkpoint->0@)
                    && checkpoint->0@.lease_term == term && checkpoint->0@.causal_state == active
            }),
    {
        let ghost seed_in = seed;
        let ghost checkpoint_in = checkpoint;
        let mut seed = seed;
        if seed.len() == 0 {
            match &checkpoint {
                None => {},
                Some(c) => {
                    match c.verify() {
                        Ok(()) => {},
                        Err(e) => {
                            return Err(e);
                        },
                    }
                    seed = copy_records(&c.causal_state);
                },
            }
        }
        if self.term != term {
            return Err(DurabilityError::StaleTerm { expected: self.term, received: term });
        }
        match self.replica() {
            Ok(_) => {},
            Err(e) => {
                return Err(e);
            },
        }
        let mut doc = self.duplicate();
        match doc.run_steps(term, &seed, checkpoint) {
            Ok(()) => {},
            Err(e) => {
                return Err(e);
            },
        }
        proof {
            lemma_reconciled_facts(old(self)@, term, records_view(seed_in@), opt_checkpoint_view(checkpoint_in));
        }
        *self = doc;
        Ok(())
    }
}

/// What a successful reconciliation does to the two checkpoint slots and the
/// document's identity.
#[verifier::rlimit(40)]
pub proof fn lemma_reconciled_facts(
    d: WarmReplicaDocumentView,
    term: LeaseTerm,
    seed: Seq<WalRecordView>,
    checkpoint: Option<ShardCheckpointView>,
)
    ensures
        ({
            let active = effective_seed(seed, checkpoint);
            let r = reconciled(d, term, seed, checkpoint);
            &&& r is Some ==> r->0.term == d.term && r->0.schema_version == d.schema_version && d.term == term
            &&& r is Some && d.pending_checkpoint is Some && (active.len() > 0 || checkpoint is Some)
                ==> r->0.pending_checkpoint is None
            &&& r is Some && d.pending_checkpoint is Some && active.len() == 0 && checkpoint is None
                && d.pending_checkpoint->0.causal_state.len() > 0 ==> r->0.pending_checkpoint == d.pending_checkpoint
            &&& r is Some && checkpoint is None && d.pending_checkpoint is Some && active
                == d.pending_checkpoint->0.causal_state ==> r->0.checkpoint == d.pending_checkpoint
            &&& r is Some && checkpoint is Some ==> r->0.checkpoint == checkpoint && checkpoint->0.lease_term
                == term && checkpoint->0.causal_state == active
        }),
{
    let active = effective_seed(seed, checkpoint);
    let r = reconciled(d, term, seed, checkpoint);
    if r is Some {
        assert(d.term == term);
        let d1 = settle_pending(d, active, active.len() > 0 || checkpoint is Some)->0;
        assert(settle_pending(d, active, active.len() > 0 || checkpoint is Some) is Some);
        assert(acknowledged_consistent(d1));
        let d2 = repair_ahead(d1, term, active, checkpoint is Some)->0;
        assert(repair_ahead(d1, term, active, checkpoint is Some) is Some);
        let d3 = fill_from_seed(d2, term, active)->0;
        assert(fill_from_seed(d2, term, active) is Some);
        assert(r == adopt_active(d3, term, active, checkpoint));
        assert(d1.term == d.term && d1.schema_version == d.schema_version);
        assert(d2.term == d1.term && d2.schema_version == d1.schema_version);
        assert(d2.pending_checkpoint == d1.pending_checkpoint);
        assert(d3.pending_checkpoint == d2.pending_checkpoint && d3.checkpoint == d2.checkpoint);
        assert(d3.term == d2.term && d3.schema_version == d2.schema_version);
        assert(r->0.pending_checkpoint == d3.pending_checkpoint);
        if checkpoint is None {
            assert(r->0.checkpoint == d3.checkpoint);
            if d.pending_checkpoint is Some && active == d.pending_checkpoint->0.causal_state {
                assert(d1.checkpoint == d.pending_checkpoint);
                assert(d2.checkpoint == d1.checkpoint);
            }
        }
    }
}

/// A replica holding the first `k` records of an intact chain, offered the
/// whole chain from record `j <= k` on, ends with the whole chain.
pub proof fn lemma_fold_from_held_prefix(term: LeaseTerm, rs: Seq<WalRecordView>, k: int, j: int)
    requires
        chain_valid(rs, term),
        rs.len() <= u64::MAX,
        0 <= j <= k <= rs.len(),
    ensures
        replica_fold(term, rs.take(k), rs.skip(j)) == Some(rs),
    decreases k - j,
{
    if j == k {
        lemma_replica_fold_suffix(term, rs, k);
    } else {
        reveal(chain_valid);
        let r = rs[j];
        assert(rs.skip(j)[0] == r);
        assert(r.sequence == j);
        assert(rs.take(k)[j] == r);
        assert(replica_verdict(term, rs.take(k), r) is AlreadyHeld);
        assert(rs.skip(j).drop_first() =~= rs.skip(j + 1));
        lemma_fold_from_held_prefix(term, rs, k, j + 1);
    }
}

/// When the active owner vouches for an intact prefix (a seed or a
/// checkpoint) and the document held an intact chain, a successful
/// reconciliation leaves the warm replica holding exactly that prefix.
#[verifier::rlimit(40)]
pub proof fn lemma_reconciled_holds_active_prefix(
    d: WarmReplicaDocumentView,
    term: LeaseTerm,
    seed: Seq<WalRecordView>,
    checkpoint: Option<ShardCheckpointView>,
)
    requires
        reconciled(d, term, seed, checkpoint) is Some,
        seed.len() > 0 || checkpoint is Some,
        chain_valid(d.records, term),
        chain_valid(effective_seed(seed, checkpoint), term),
        d.records.len() <= u64::MAX,
        effective_seed(seed, checkpoint).len() <= u64::MAX,
    ensures
        reconciled(d, term, seed, checkpoint)->0.records == effective_seed(seed, checkpoint),
{
    let active = effective_seed(seed, checkpoint);
    let has = checkpoint is Some;
    let d1 = settle_pending(d, active, active.len() > 0 || checkpoint is Some)->0;
    let d2 = repair_ahead(d1, term, active, has)->0;
    let d3 = fill_from_seed(d2, term, active)->0;
    assert(reconciled(d, term, seed, checkpoint) == adopt_active(d3, term, active, checkpoint));
    assert(d1.records == d.records || d1.records == active);
    lemma_replica_accepts_chain(term, d1.records);
    lemma_replica_accepts_chain(term, active);
    assert(active.len() > 0 || has);
    // After the repair the held records agree with the active prefix and are
    // no longer than it, or are it.
    assert(d2.records == active || (d2.records == d1.records && d1.records.len() <= active.len()
        && agree_where_both(d1.records, active)));
    if d2.records.len() < active.len() {
        let k = d2.records.len() as int;
        assert(d2.records =~= active.take(k));
        lemma_fold_from_held_prefix(term, active, k, 0);
        assert(active.skip(0) =~= active);
        assert(replica_fold(term, Seq::empty(), d2.records) == Some(d2.records));
    } else {
        assert(d2.records =~= active);
    }
}

/// Offering one more record to a replica rebuilt from a prefix is offering the
/// extended prefix.
pub proof fn lemma_fold_push(term: LeaseTerm, rs: Seq<WalRecordView>, r: WalRecordView)
    ensures
        replica_fold(term, Seq::empty(), rs) matches Some(held) ==> replica_fold(
            term,
            Seq::empty(),
            rs.push(r),
        ) == replica_fold(term, held, seq![r]),
{
    lemma_fold_append(term, Seq::empty(), rs, seq![r]);
    assert(rs + seq![r] =~= rs.push(r));
}

/// Where a replay of a concatenation first fails: in the first part, or,
/// when the first part replays, in the second part from where it ended.
pub proof fn lemma_fold_failure_append(
    term: LeaseTerm,
    start: Seq<WalRecordView>,
    a: Seq<WalRecordView>,
    b: Seq<WalRecordView>,
)
    ensures
        replica_fold(term, start, a) matches Some(mid) ==> crate::replica::fold_failure(term, start, a + b)
            == crate::replica::fold_failure(term, mid, b),
        crate::replica::fold_failure(term, start, a) is Some ==> crate::replica::fold_failure(term, start, a + b)
            == crate::replica::fold_failure(term, start, a),
    decreases a.len(),
{
    if a.len() > 0 {
        assert((a + b).drop_first() =~= a.drop_first() + b);
        assert((a + b)[0] == a[0]);
        match crate::replica::replica_verdict(term, start, a[0]) {
            crate::replica::ReplicaVerdict::AlreadyHeld => {
                lemma_fold_failure_append(term, start, a.drop_first(), b);
            },
            crate::replica::ReplicaVerdict::Append => {
                lemma_fold_failure_append(term, start.push(a[0]), a.drop_first(), b);
            },
            _ => {},
        }
    } else {
        assert(a + b =~= b);
    }
}

/// A replay that fails on a prefix fails on every extension of it.
pub proof fn lemma_fold_none_append(
    term: LeaseTerm,
    start: Seq<WalRecordView>,
    a: Seq<WalRecordView>,
    b: Seq<WalRecordView>,
)
    ensures
        replica_fold(term, start, a) is None ==> replica_fold(term, start, a + b) is None,
    decreases a.len(),
{
    if a.len() > 0 {
        assert((a + b).drop_first() =~= a.drop_first() + b);
        assert((a + b)[0] == a[0]);
        match crate::replica::replica_verdict(term, start, a[0]) {
            crate::replica::ReplicaVerdict::AlreadyHeld => {
                lemma_fold_none_append(term, start, a.drop_first(), b);
            },
            crate::replica::ReplicaVerdict::Append => {
                lemma_fold_none_append(term, start.push(a[0]), a.drop_first(), b);
            },
            _ => {},
        }
    }
}

/// Folding a concatenation folds the first part, then the second.
pub proof fn lemma_fold_append(
    term: LeaseTerm,
    start: Seq<WalRecordView>,
    a: Seq<WalRecordView>,
    b: Seq<WalRecordView>,
)
    ensures
        replica_fold(term, start, a) matches Some(mid) ==> replica_fold(term, start, a + b)
            == replica_fold(term, mid, b),
    decreases a.len(),
{
    if a.len() > 0 {
        assert((a + b).drop_first() =~= a.drop_first() + b);
        assert((a + b)[0] == a[0]);
        match crate::replica::replica_verdict(term, start, a[0]) {
            crate::replica::ReplicaVerdict::AlreadyHeld => {
                lemma_fold_append(term, start, a.drop_first(), b);
            },
            crate::replica::ReplicaVerdict::Append => {
                lemma_fold_append(term, start.push(a[0]), a.drop_first(), b);
            },
            _ => {},
        }
    } else {
        assert(a + b =~= b);
    }
}

/// A warm replica that holds the active owner's WAL prefix accepts the
/// owner's next committed record, ending with exactly the owner's new WAL;
/// the owner's new checkpoint then verifies, carries the replica's term and
/// extends the replica's prefix, so it can be prepared; and it sits at the
/// owner's new WAL position, so it can be finalized there.
#[verifier::rlimit(30)]
pub proof fn lemma_in_sync_replica_follows_commit(
    before: crate::shard::DurableShard,
    after: crate::shard::DurableShard,
    d: WarmReplicaDocumentView,
)
    requires
        before.wf(),
        after.wf(),
        after@.lease_term == before@.lease_term,
        after@.wal.len() == before@.wal.len() + 1,
        after@.wal.take(before@.wal.len() as int) == before@.wal,
        d.term == before@.lease_term,
        d.records == before@.wal,
        crate::checkpoint::checkpoint_material(crate::shard::shard_snapshot(after@)).len()
            <= crate::checkpoint::max_checkpoint_bytes(),
    ensures
        replica_fold(d.term, Seq::empty(), d.records.push(after@.wal.last())) == Some(after@.wal),
        ({
            let snap = crate::shard::shard_snapshot(after@);
            let p = ShardCheckpointView {
                state_digest: crate::checkpoint::checkpoint_digest(crate::checkpoint::checkpoint_material(snap)),
                ..snap
            };
            &&& checkpoint_verifies(p)
            &&& p.lease_term == d.term
            &&& prefix_of(after@.wal, p.causal_state)
            &&& p.durable_wal_sequence == Some((after@.wal.len() - 1) as u64)
        }),
{
    lemma_in_sync_replica_accepts(before, after, d);
    crate::shard::lemma_own_checkpoint_restorable(after);
    assert(after@.wal.take(after@.wal.len() as int) =~= after@.wal);
}

proof fn lemma_in_sync_replica_accepts(
    before: crate::shard::DurableShard,
    after: crate::shard::DurableShard,
    d: WarmReplicaDocumentView,
)
    requires
        after.wf(),
        after@.lease_term == before@.lease_term,
        after@.wal.len() == before@.wal.len() + 1,
        after@.wal.take(before@.wal.len() as int) == before@.wal,
        d.term == before@.lease_term,
        d.records == before@.wal,
    ensures
        replica_fold(d.term, Seq::empty(), d.records.push(after@.wal.last())) == Some(after@.wal),
{
    crate::shard::lemma_shard_wal_intact(after);
    lemma_replica_accepts_chain(after@.lease_term, after@.wal);
    assert(d.records.push(after@.wal.last()) =~= after@.wal);
}

} // verus!
