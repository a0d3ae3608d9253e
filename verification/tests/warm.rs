use aarnn::checkpoint::ShardCheckpointPayload;
use aarnn::data_plane::{CausalEnvelope, CausalEvent, EnvelopeKind, EventStage};
use aarnn::error::DurabilityError;
use aarnn::ids::{
    BrainId, EventId, LeaseTerm, LogicalTag, PartitionGeneration, RouteId, SchemaVersion, ShardId, StreamId,
    TopologyGeneration,
};
use aarnn::owner::{admit_writer, open_persisted, restore_from_warm};
use aarnn::shard::DurableShard;
use aarnn::wal::WalRecord;
use aarnn::warm_commit::{warm_commit_abort, warm_commit_steps, WarmCommitKind, WarmStep};
use aarnn::warm_document::WarmReplicaDocument;

fn envelope(sequence: u64, event_id: u64, payload: &[u8]) -> CausalEnvelope {
    CausalEnvelope {
        schema_version: SchemaVersion::current(),
        brain: BrainId::new(1).expect("brain"),
        stream: StreamId::new(2).expect("stream"),
        sequence,
        lease_term: LeaseTerm::initial(),
        route: RouteId::new(3).expect("route"),
        partition_generation: PartitionGeneration::initial(),
        source: None,
        target: None,
        tag: LogicalTag::new(sequence, 0),
        event: EventId::new(event_id).expect("event"),
        stage: EventStage::SpikeDecision,
        kind: EnvelopeKind::Event,
        payload: payload.to_vec(),
        deferred_from_nonconvergence: false,
    }
}

fn shard() -> DurableShard {
    DurableShard::new(
        BrainId::new(1).expect("brain"),
        ShardId::new(9).expect("shard"),
        TopologyGeneration::initial(),
        PartitionGeneration::initial(),
        LeaseTerm::initial(),
        StreamId::new(2).expect("stream"),
        64,
        vec![0],
        b"empty-channel".to_vec(),
    )
}

fn add(current: &[u8], event: &CausalEvent) -> Result<Vec<u8>, &'static str> {
    Ok(vec![current[0] + event.payload[0]])
}

fn boundaries(id: u64, value: u8) -> (ShardCheckpointPayload, Vec<WalRecord>, ShardCheckpointPayload, Vec<WalRecord>) {
    let initial = shard();
    let initial_checkpoint = initial.checkpoint_payload().expect("initial checkpoint");
    let initial_records = initial_checkpoint.causal_state.clone();
    let mut advanced = initial.clone();
    advanced
        .apply_once(&envelope(0, id, &[value]), add)
        .expect("advance active shard");
    let advanced_checkpoint = advanced.checkpoint_payload().expect("advanced checkpoint");
    let advanced_records = advanced_checkpoint.causal_state.clone();
    (initial_checkpoint, initial_records, advanced_checkpoint, advanced_records)
}

fn same(a: &Option<ShardCheckpointPayload>, b: &ShardCheckpointPayload) -> bool {
    a.as_ref().is_some_and(|p| p.same_as(b))
}

#[test]
fn warm_document_recovers_biological_state_across_a_crash_window() {
    let term = LeaseTerm::initial();
    let (initial_checkpoint, initial_records, advanced_checkpoint, advanced_records) = boundaries(24, 7);

    let mut doc = WarmReplicaDocument::empty(term);
    doc.reconcile(term, initial_records.clone(), Some(initial_checkpoint.clone()))
        .expect("open warm checkpoint");
    doc.apply(advanced_records[0].clone()).expect("prepare warm WAL");
    doc.prepare_checkpoint(&advanced_checkpoint).expect("prepare warm state");

    doc.check_readable(term).expect("readable");
    doc.reconcile(term, initial_records.clone(), Some(initial_checkpoint.clone()))
        .expect("recover old active boundary");
    assert!(same(&doc.checkpoint().expect("old checkpoint"), &initial_checkpoint));
    assert!(doc.records.is_empty());
    assert!(doc.pending_checkpoint.is_none());
    assert!(same(
        &doc.recovery_checkpoint().expect("recovery checkpoint"),
        &initial_checkpoint
    ));

    doc.reconcile(term, initial_records, None).expect("reopen warm after rollback");
    doc.apply(advanced_records[0].clone()).expect("replicate advanced WAL");
    doc.prepare_checkpoint(&advanced_checkpoint).expect("prepare advanced state");
    doc.reconcile(term, advanced_records, Some(advanced_checkpoint.clone()))
        .expect("recover published active boundary");
    assert_eq!(
        doc.recovery_checkpoint()
            .expect("recovery checkpoint")
            .expect("checkpoint")
            .biological_state,
        advanced_checkpoint.biological_state
    );
    assert!(doc.pending_checkpoint.is_none());
}

#[test]
fn warm_document_repairs_a_synced_record_when_active_publish_did_not_start() {
    let term = LeaseTerm::initial();
    let (initial_checkpoint, initial_records, _advanced_checkpoint, advanced_records) = boundaries(25, 8);
    let mut doc = WarmReplicaDocument::empty(term);
    doc.reconcile(term, initial_records.clone(), Some(initial_checkpoint.clone()))
        .expect("open warm checkpoint");
    doc.apply(advanced_records[0].clone()).expect("replicate WAL record");
    doc.reconcile(term, initial_records, Some(initial_checkpoint.clone()))
        .expect("repair uncommitted warm suffix");
    assert!(doc.records.is_empty());
    assert!(same(&doc.checkpoint().expect("checkpoint"), &initial_checkpoint));
}

#[test]
fn warm_document_catches_up_with_the_active_prefix() {
    let term = LeaseTerm::initial();
    let (_, _, advanced_checkpoint, advanced_records) = boundaries(26, 3);
    let mut doc = WarmReplicaDocument::empty(term);
    doc.reconcile(term, Vec::new(), Some(advanced_checkpoint.clone()))
        .expect("seed from checkpoint");
    assert_eq!(doc.records.len(), 1);
    assert!(doc.records[0].same_as(&advanced_records[0]));
    assert_eq!(doc.durable_sequence().expect("sequence"), Some(0));
    assert!(same(&doc.checkpoint, &advanced_checkpoint));
}

#[test]
fn warm_document_refuses_another_term_and_a_foreign_checkpoint() {
    let term = LeaseTerm::initial();
    let (initial_checkpoint, initial_records, _, advanced_records) = boundaries(27, 1);
    let mut doc = WarmReplicaDocument::empty(LeaseTerm::new(2).expect("term"));
    assert!(matches!(
        doc.reconcile(term, initial_records, None),
        Err(DurabilityError::StaleTerm { .. })
    ));
    assert!(matches!(doc.check_readable(term), Err(DurabilityError::StaleTerm { .. })));
    let mut fresh = WarmReplicaDocument::empty(term);
    assert!(matches!(
        fresh.reconcile(term, advanced_records, Some(initial_checkpoint.clone())),
        Err(DurabilityError::Corrupt(_))
    ));
    assert!(fresh.checkpoint.is_none());
    let mut stale = initial_checkpoint.clone();
    stale.lease_term = LeaseTerm::new(2).expect("term");
    let stale = stale.seal().expect("seal");
    assert!(matches!(
        fresh.prepare_checkpoint(&stale),
        Err(DurabilityError::StaleTerm { .. })
    ));
}

#[test]
fn warm_document_two_phase_checkpoint_and_rollback() {
    let term = LeaseTerm::initial();
    let (_, _, advanced_checkpoint, advanced_records) = boundaries(28, 2);
    let mut doc = WarmReplicaDocument::empty(term);
    assert!(matches!(doc.finalize_checkpoint(Some(0)), Err(DurabilityError::Corrupt(_))));
    doc.apply(advanced_records[0].clone()).expect("apply");
    doc.apply(advanced_records[0].clone()).expect("retransmission");
    assert_eq!(doc.records.len(), 1);
    doc.prepare_checkpoint(&advanced_checkpoint).expect("prepare");
    assert!(matches!(doc.finalize_checkpoint(None), Err(DurabilityError::Corrupt(_))));
    doc.finalize_checkpoint(Some(0)).expect("finalize");
    assert!(doc.pending_checkpoint.is_none());
    assert!(same(&doc.checkpoint, &advanced_checkpoint));

    doc.prepare_checkpoint(&advanced_checkpoint).expect("prepare again");
    doc.rollback_pending();
    doc.rollback_pending();
    assert!(doc.pending_checkpoint.is_none());
    assert!(doc.checkpoint.is_some());

    assert!(matches!(
        doc.truncate_to(Some(5)),
        Err(DurabilityError::ReplicaSequenceGap { expected: 1, received: 6 })
    ));
    doc.prepare_checkpoint(&advanced_checkpoint).expect("prepare");
    doc.truncate_to(None).expect("truncate");
    assert!(doc.records.is_empty());
    assert!(doc.pending_checkpoint.is_none());
}

#[test]
fn warm_document_reissue_needs_a_newer_term() {
    let term = LeaseTerm::initial();
    let (_, _, advanced_checkpoint, advanced_records) = boundaries(29, 4);
    let mut doc = WarmReplicaDocument::empty(term);
    doc.reconcile(term, advanced_records, Some(advanced_checkpoint)).expect("seed");
    assert!(matches!(doc.reissue_term(term), Err(DurabilityError::StaleTerm { .. })));
    let newer = LeaseTerm::new(2).expect("term");
    doc.reissue_term(newer).expect("reissue");
    assert_eq!(doc.term, newer);
    assert_eq!(doc.records[0].lease_term, newer);
    let checkpoint = doc.checkpoint().expect("checkpoint verifies").expect("present");
    assert_eq!(checkpoint.lease_term, newer);
    assert_eq!(doc.persisted_term().expect("term"), newer);
    assert_eq!(doc.replica().expect("replica").applied(), 1);
}

#[test]
fn owner_reopens_only_for_its_identity_and_term() {
    let mut active = shard();
    active.apply_once(&envelope(0, 30, &[5]), add).expect("apply");
    let payload = active.checkpoint_payload().expect("payload");
    let reopened = open_persisted(
        payload.clone(),
        BrainId::new(1).expect("brain"),
        ShardId::new(9).expect("shard"),
        TopologyGeneration::initial(),
        PartitionGeneration::initial(),
        LeaseTerm::initial(),
        StreamId::new(2).expect("stream"),
        64,
    )
    .expect("same owner");
    assert_eq!(reopened.biological_state(), &[5]);
    assert!(matches!(
        open_persisted(
            payload.clone(),
            BrainId::new(1).expect("brain"),
            ShardId::new(8).expect("shard"),
            TopologyGeneration::initial(),
            PartitionGeneration::initial(),
            LeaseTerm::initial(),
            StreamId::new(2).expect("stream"),
            64,
        ),
        Err(DurabilityError::Corrupt(_))
    ));
    assert!(matches!(
        open_persisted(
            payload.clone(),
            BrainId::new(1).expect("brain"),
            ShardId::new(9).expect("shard"),
            TopologyGeneration::initial(),
            PartitionGeneration::initial(),
            LeaseTerm::new(2).expect("term"),
            StreamId::new(2).expect("stream"),
            64,
        ),
        Err(DurabilityError::StaleTerm { .. })
    ));
    assert!(admit_writer(LeaseTerm::initial(), LeaseTerm::initial()).is_ok());
    assert!(matches!(
        admit_writer(LeaseTerm::new(3).expect("term"), LeaseTerm::initial()),
        Err(DurabilityError::StaleTerm { .. })
    ));

    let restored = restore_from_warm(None, payload.clone(), StreamId::new(2).expect("stream"), 64)
        .expect("restore from warm");
    assert_eq!(restored.durable_log_sequence(), Some(0));
    let other = shard().checkpoint_payload().expect("other");
    assert!(matches!(
        restore_from_warm(Some(other), payload, StreamId::new(2).expect("stream"), 64),
        Err(DurabilityError::Corrupt(_))
    ));
}

#[test]
fn warm_commit_steps_and_rollbacks_follow_the_commit_kind() {
    let event = WarmCommitKind::Event { applied: true, record: true };
    assert_eq!(
        warm_commit_steps(event),
        vec![
            WarmStep::ReplicateRecord,
            WarmStep::PrepareCheckpoint,
            WarmStep::PublishActive,
            WarmStep::FinalizeCheckpoint,
        ]
    );
    let duplicate = WarmCommitKind::Event { applied: false, record: true };
    assert_eq!(warm_commit_steps(duplicate), vec![WarmStep::PublishActive]);
    let plan = warm_commit_abort(duplicate, WarmStep::PublishActive);
    assert!(!plan.restore_active && !plan.truncate_warm && !plan.rollback_pending);
    let plan = warm_commit_abort(event, WarmStep::PrepareCheckpoint);
    assert!(!plan.restore_active && plan.truncate_warm && plan.rollback_pending);
    let plan = warm_commit_abort(event, WarmStep::FinalizeCheckpoint);
    assert!(plan.restore_active && plan.truncate_warm && plan.rollback_pending);
    let plan = warm_commit_abort(WarmCommitKind::CursorUpdate, WarmStep::FinalizeCheckpoint);
    assert!(plan.restore_active && !plan.truncate_warm && plan.rollback_pending);
    assert_eq!(
        warm_commit_steps(WarmCommitKind::CursorUpdate),
        vec![WarmStep::PrepareCheckpoint, WarmStep::PublishActive, WarmStep::FinalizeCheckpoint]
    );
}

#[test]
fn warm_document_without_active_owner_keeps_its_preparation() {
    let term = LeaseTerm::initial();
    let (_, initial_records, advanced_checkpoint, advanced_records) = boundaries(31, 6);
    let mut doc = WarmReplicaDocument::empty(term);
    doc.apply(advanced_records[0].clone()).expect("apply");
    doc.prepare_checkpoint(&advanced_checkpoint).expect("prepare");
    doc.reconcile(term, initial_records, None).expect("no active owner");
    assert!(same(&doc.pending_checkpoint, &advanced_checkpoint));
    assert_eq!(doc.records.len(), 1);
}

#[test]
fn aborted_warm_commit_leaves_the_replica_as_it_was() {
    let term = LeaseTerm::initial();
    let (initial_checkpoint, initial_records, advanced_checkpoint, advanced_records) = boundaries(32, 5);
    let mut doc = WarmReplicaDocument::empty(term);
    doc.reconcile(term, initial_records, Some(initial_checkpoint.clone())).expect("in sync");
    let kind = WarmCommitKind::Event { applied: true, record: true };
    doc.apply(advanced_records[0].clone()).expect("replicate");
    doc.prepare_checkpoint(&advanced_checkpoint).expect("prepare");
    // Publishing the active state fails: carry out the abort plan.
    let plan = warm_commit_abort(kind, WarmStep::PublishActive);
    assert!(!plan.restore_active);
    if plan.truncate_warm {
        doc.truncate_to(None).expect("truncate");
    }
    if plan.rollback_pending {
        doc.rollback_pending();
    }
    assert!(doc.records.is_empty());
    assert!(doc.pending_checkpoint.is_none());
    assert!(same(&doc.checkpoint, &initial_checkpoint));
}
