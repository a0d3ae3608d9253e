use aarnn::causal_wal::{CausalWal, WalDocument};
use aarnn::checkpoint::{CheckpointStore, ShardCheckpointPayload};
use aarnn::data_plane::{CanonicalEventKey, CausalEnvelope, CausalEvent, EnvelopeKind, EventStage};
use aarnn::digest::StateDigestBuilder;
use aarnn::error::DurabilityError;
use aarnn::ids::{
    BrainId, EventId, LeaseTerm, LogicalTag, PartitionGeneration, RouteId, SchemaVersion, ShardId, StateDigest,
    StreamId, TopologyGeneration,
};
use aarnn::receipts::{ReceiptLedger, ReceiptOutcome};
use aarnn::replica::WarmReplica;
use aarnn::shard::{DurableApplyOutcome, DurableShard};

fn event(id: u64) -> CausalEvent {
    let event_id = EventId::new(id).expect("event id");
    CausalEvent::new(
        event_id,
        CanonicalEventKey::new(LogicalTag::zero(), EventStage::SynapticTransition, 1, 2, id),
        vec![id as u8],
    )
}

fn envelope(sequence: u64, event_id: u64, payload: &[u8]) -> CausalEnvelope {
    CausalEnvelope {
        schema_version: SchemaVersion::current(),
        brain: BrainId::new(1).expect("brain"),
        stream: StreamId::new(2).expect("stream"),
        sequence,
        lease_term: LeaseTerm::initial(),
        route: RouteId::new(3).expect("route"),
        partition_generation: PartitionGeneration::initial(),
        source: None,
        target: None,
        tag: LogicalTag::new(sequence, 0),
        event: EventId::new(event_id).expect("event"),
        stage: EventStage::SpikeDecision,
        kind: EnvelopeKind::Event,
        payload: payload.to_vec(),
        deferred_from_nonconvergence: false,
    }
}

fn shard() -> DurableShard {
    DurableShard::new(
        BrainId::new(1).expect("brain"),
        ShardId::new(9).expect("shard"),
        TopologyGeneration::initial(),
        PartitionGeneration::initial(),
        LeaseTerm::initial(),
        StreamId::new(2).expect("stream"),
        64,
        vec![0],
        b"empty-channel".to_vec(),
    )
}

#[test]
fn warm_replica_accepts_exact_retransmission_but_rejects_conflict() {
    let mut wal = CausalWal::new(LeaseTerm::initial());
    let record = wal
        .append(LeaseTerm::initial(), &event(12))
        .expect("append WAL");
    let mut replica = WarmReplica::new(LeaseTerm::initial());
    replica.apply(record.clone()).expect("first receipt");
    assert_eq!(
        replica.apply(record.clone()).expect("duplicate receipt"),
        ()
    );
    assert_eq!(replica.applied(), 1);

    let mut conflicting = record;
    conflicting.payload = vec![42];
    assert!(matches!(
        replica.apply(conflicting),
        Err(DurabilityError::Corrupt(_))
    ));
}

#[test]
fn receipt_ledger_deduplicates_by_stream_position_and_event_identity() {
    let stream = StreamId::new(3).expect("stream");
    let generation = PartitionGeneration::initial();
    let mut ledger = ReceiptLedger::default();
    let input = event(13);
    assert_eq!(
        ledger
            .record_event(stream, 0, &input, LeaseTerm::initial(), generation)
            .expect("record receipt"),
        ReceiptOutcome::New
    );
    assert_eq!(
        ledger
            .record_event(stream, 0, &input, LeaseTerm::initial(), generation)
            .expect("deduplicate receipt"),
        ReceiptOutcome::Duplicate
    );
    let mut changed = event(13);
    changed.payload = vec![200];
    assert!(matches!(
        ledger.record_event(stream, 0, &changed, LeaseTerm::initial(), generation),
        Err(DurabilityError::Corrupt(_))
    ));
    assert_eq!(ledger.len(), 1);
}

#[test]
fn warm_replica_accepts_consecutive_records_without_skipping_a_sequence() {
    let mut wal = CausalWal::new(LeaseTerm::initial());
    let first = wal.append(LeaseTerm::initial(), &event(20)).expect("first");
    let second = wal.append(LeaseTerm::initial(), &event(21)).expect("second");
    let mut replica = WarmReplica::new(LeaseTerm::initial());
    replica.apply(first).expect("first receipt");
    replica.apply(second).expect("second receipt");
    assert_eq!(replica.applied(), 2);
    assert_eq!(replica.durable_sequence(), Some(1));
}

#[test]
fn durable_shard_stages_transition_and_deduplicates_replay() {
    let mut shard = shard();
    let first = envelope(0, 30, &[2]);
    assert_eq!(
        shard
            .apply_once(&first, |current: &[u8], event: &CausalEvent| {
                Ok::<_, &'static str>(vec![current[0].saturating_add(event.payload[0])])
            })
            .expect("apply first"),
        DurableApplyOutcome::Applied { sequence: 0 }
    );
    assert_eq!(shard.biological_state(), &[2]);

    assert_eq!(
        shard
            .apply_once(&first, |_: &[u8], _: &CausalEvent| -> Result<Vec<u8>, &'static str> {
                panic!("duplicate must not invoke the biological transition")
            })
            .expect("duplicate"),
        DurableApplyOutcome::Duplicate { sequence: 0 }
    );
    assert_eq!(shard.receipt_count(), 1);

    let second = envelope(1, 31, &[3]);
    shard
        .apply_once(&second, |current: &[u8], event: &CausalEvent| {
            Ok::<_, &'static str>(vec![current[0] + event.payload[0]])
        })
        .expect("apply second");
    assert_eq!(shard.biological_state(), &[5]);
    assert_eq!(shard.durable_log_sequence(), Some(1));
}

#[test]
fn durable_shard_keeps_independent_sender_cursors_in_one_wal_order() {
    let mut shard = shard();
    let sender_b = StreamId::new(44).expect("second sender stream");
    let mut second = envelope(0, 41, &[3]);
    second.stream = sender_b;
    let mut third = envelope(1, 42, &[4]);
    third.event = EventId::new(42).expect("third event");

    shard
        .apply_once(&envelope(0, 40, &[2]), |current: &[u8], event: &CausalEvent| {
            Ok::<_, &'static str>(vec![current[0] + event.payload[0]])
        })
        .expect("first sender event");
    shard
        .apply_once(&second, |current: &[u8], event: &CausalEvent| {
            Ok::<_, &'static str>(vec![current[0] + event.payload[0]])
        })
        .expect("second sender event");
    shard
        .apply_once(&third, |current: &[u8], event: &CausalEvent| {
            Ok::<_, &'static str>(vec![current[0] + event.payload[0]])
        })
        .expect("first sender resumes");
    assert_eq!(shard.biological_state(), &[9]);
    assert_eq!(shard.durable_log_sequence(), Some(2));
    assert_eq!(shard.receipt_count(), 3);

    let checkpoint = shard.checkpoint_payload().expect("checkpoint");
    let restored = DurableShard::restore_from_checkpoint(
        checkpoint,
        StreamId::new(2).expect("primary stream"),
        64,
    )
    .expect("multi-sender checkpoint restores");
    assert_eq!(restored.biological_state(), &[9]);

    let mut replay = second.clone();
    replay.payload = vec![99];
    assert!(matches!(
        restored
            .clone()
            .apply_once(&replay, |_: &[u8], _: &CausalEvent| Ok::<_, &'static str>(vec![0])),
        Err(DurabilityError::Corrupt(_))
    ));
}

#[test]
fn failed_transition_leaves_the_durable_boundary_unchanged() {
    let mut shard = shard();
    let input = envelope(0, 40, &[7]);
    assert!(matches!(
        shard.apply_once(&input, |_: &[u8], _: &CausalEvent| Err::<Vec<u8>, _>("reject")),
        Err(DurabilityError::Transition(_))
    ));
    assert_eq!(shard.biological_state(), &[0]);
    assert_eq!(shard.durable_log_sequence(), None);
    assert_eq!(shard.receipt_count(), 0);

    shard
        .apply_once(&input, |current: &[u8], event: &CausalEvent| {
            Ok::<_, &'static str>(vec![current[0] + event.payload[0]])
        })
        .expect("retry after failed staging");
    assert_eq!(shard.biological_state(), &[7]);
}

#[test]
fn shard_checkpoint_restores_wal_receiver_receipts_and_biological_state() {
    let mut shard = shard();
    let input = envelope(0, 50, &[9]);
    shard
        .apply_once(&input, |current: &[u8], event: &CausalEvent| {
            Ok::<_, &'static str>(vec![current[0] + event.payload[0]])
        })
        .expect("apply");
    let checkpoint = shard.checkpoint_payload().expect("checkpoint");
    let mut restored = DurableShard::restore_from_checkpoint(
        checkpoint,
        StreamId::new(2).expect("stream"),
        64,
    )
    .expect("restore");
    assert_eq!(restored.biological_state(), &[9]);
    assert_eq!(restored.durable_log_sequence(), Some(0));
    assert_eq!(restored.receipt_count(), 1);
    assert_eq!(
        restored
            .apply_once(&envelope(1, 51, &[1]), |current: &[u8], event: &CausalEvent| {
                Ok::<_, &'static str>(vec![current[0] + event.payload[0]])
            })
            .expect("replay tail"),
        DurableApplyOutcome::Applied { sequence: 1 }
    );
    assert_eq!(restored.biological_state(), &[10]);
}

fn sample_payload(sequence: Option<u64>) -> ShardCheckpointPayload {
    ShardCheckpointPayload::new(
        BrainId::new(1).expect("brain"),
        ShardId::new(2).expect("shard"),
        TopologyGeneration::initial(),
        PartitionGeneration::initial(),
        LeaseTerm::initial(),
        LogicalTag::new(8, 0),
        LogicalTag::new(8, 0),
        sequence,
        b"biological".to_vec(),
        Vec::new(),
        b"channels".to_vec(),
        ReceiptLedger::default(),
    )
}

#[test]
fn legacy_checkpoint_without_peripheral_domain_remains_recoverable() {
    let payload = ShardCheckpointPayload::new(
        BrainId::new(1).expect("brain"),
        ShardId::new(2).expect("shard"),
        TopologyGeneration::initial(),
        PartitionGeneration::initial(),
        LeaseTerm::initial(),
        LogicalTag::zero(),
        LogicalTag::zero(),
        None,
        b"biological".to_vec(),
        Vec::new(),
        b"channels".to_vec(),
        ReceiptLedger::default(),
    )
    .seal()
    .expect("current checkpoint");
    let mut legacy = payload.clone();
    let mut digest = StateDigestBuilder::new();
    digest.add_domain(
        "shard-checkpoint:v1",
        &legacy.encoded_bytes_without_peripheral_state(),
    );
    legacy.state_digest = digest.finish();
    legacy.verify().expect("legacy checkpoint remains readable");
}

#[test]
fn sealed_checkpoint_verifies_and_detects_tampering() {
    let mut sealed = sample_payload(Some(4)).seal().expect("seal payload");
    sealed.verify().expect("sealed payload verifies");
    sealed.channel_state[0] ^= 1;
    assert!(matches!(
        sealed.verify(),
        Err(DurabilityError::ShardCheckpointDigestMismatch)
    ));
    let mut zeroed = sample_payload(None).seal().expect("seal");
    zeroed.state_digest = StateDigest::zero();
    assert!(matches!(
        zeroed.verify(),
        Err(DurabilityError::ShardCheckpointDigestMismatch)
    ));
}

#[test]
fn unsupported_checkpoint_schema_is_corrupt() {
    let mut sealed = sample_payload(None).seal().expect("seal");
    sealed.schema_version = SchemaVersion(2);
    assert!(matches!(sealed.verify(), Err(DurabilityError::Corrupt(_))));
}

#[test]
fn checkpoint_store_publishes_once_and_reads_back() {
    let mut store = CheckpointStore::new();
    let id = EventId::new(14).expect("checkpoint");
    let manifest = store
        .publish(id, LeaseTerm::initial(), PartitionGeneration::initial(), Some(3), vec![1, 2, 3])
        .expect("publish");
    assert_eq!(manifest.checkpoint_id, id);
    assert_eq!(manifest.last_wal_sequence, Some(3));
    let read = store.verify(id).expect("verify");
    assert_eq!(read.payload, vec![1, 2, 3]);
    assert!(matches!(
        store.publish(id, LeaseTerm::initial(), PartitionGeneration::initial(), None, vec![9]),
        Err(DurabilityError::CheckpointAlreadyPublished(_))
    ));
    let missing = EventId::new(15).expect("other");
    assert!(matches!(
        store.verify(missing),
        Err(DurabilityError::MissingCheckpoint(_))
    ));
}

#[test]
fn wal_rejects_stale_terms_and_fences_forward() {
    let mut wal = CausalWal::new(LeaseTerm::initial());
    let newer = LeaseTerm::new(2).expect("term");
    assert!(matches!(
        wal.append(newer, &event(1)),
        Err(DurabilityError::StaleTerm { .. })
    ));
    wal.fence(newer);
    assert!(matches!(
        wal.append(LeaseTerm::initial(), &event(1)),
        Err(DurabilityError::StaleTerm { .. })
    ));
    let record = wal.append(newer, &event(1)).expect("append under fenced term");
    assert_eq!(record.sequence, 0);
    assert_eq!(record.lease_term, newer);
    wal.fence(LeaseTerm::initial());
    assert!(wal.require_term(newer).is_ok());
    assert_eq!(wal.last_sequence(), Some(0));
}

#[test]
fn wal_chain_links_records_and_rebuilds_only_when_intact() {
    let mut wal = CausalWal::new(LeaseTerm::initial());
    let first = wal.append(LeaseTerm::initial(), &event(1)).expect("first");
    let second = wal.append(LeaseTerm::initial(), &event(2)).expect("second");
    assert_eq!(second.previous_digest, first.record_digest);
    assert_eq!(first.previous_digest, StateDigest::zero());
    assert_ne!(first.record_digest, second.record_digest);
    let since = wal.records_since(1);
    assert_eq!(since.len(), 1);
    assert_eq!(since[0].sequence, 1);

    let rebuilt = CausalWal::from_records(LeaseTerm::initial(), vec![first.clone(), second.clone()])
        .expect("intact chain");
    assert_eq!(rebuilt.last_sequence(), Some(1));
    let mut tampered = second.clone();
    tampered.payload = vec![7];
    assert!(matches!(
        CausalWal::from_records(LeaseTerm::initial(), vec![first.clone(), tampered]),
        Err(DurabilityError::Corrupt(_))
    ));
    assert!(matches!(
        CausalWal::from_records(LeaseTerm::initial(), vec![second]),
        Err(DurabilityError::Corrupt(_))
    ));
}

#[test]
fn persisted_wal_opens_for_newer_writers_only() {
    let mut wal = CausalWal::new(LeaseTerm::new(2).expect("term"));
    wal.append(LeaseTerm::new(2).expect("term"), &event(1)).expect("append");
    let document = wal.to_document();
    let reopened = CausalWal::open_document(document.clone(), LeaseTerm::new(3).expect("term"))
        .expect("newer writer");
    assert_eq!(reopened.active_term(), LeaseTerm::new(3).expect("term"));
    assert_eq!(reopened.last_sequence(), Some(0));
    assert!(matches!(
        CausalWal::open_document(document.clone(), LeaseTerm::initial()),
        Err(DurabilityError::StaleTerm { .. })
    ));
    let skewed = WalDocument { next_sequence: 5, ..document.clone() };
    assert!(matches!(
        CausalWal::open_document(skewed, LeaseTerm::new(2).expect("term")),
        Err(DurabilityError::Corrupt(_))
    ));
    let old_schema = WalDocument { schema_version: SchemaVersion(0), ..document };
    assert!(matches!(
        CausalWal::open_document(old_schema, LeaseTerm::new(2).expect("term")),
        Err(DurabilityError::Corrupt(_))
    ));
}

#[test]
fn warm_replica_refuses_gaps_and_stale_terms() {
    let mut wal = CausalWal::new(LeaseTerm::initial());
    let _first = wal.append(LeaseTerm::initial(), &event(1)).expect("first");
    let second = wal.append(LeaseTerm::initial(), &event(2)).expect("second");
    let mut replica = WarmReplica::new(LeaseTerm::initial());
    assert!(matches!(
        replica.apply(second),
        Err(DurabilityError::ReplicaSequenceGap { expected: 0, received: 1 })
    ));
    let mut other = WarmReplica::new(LeaseTerm::new(2).expect("term"));
    let mut wal_one = CausalWal::new(LeaseTerm::initial());
    let record = wal_one.append(LeaseTerm::initial(), &event(3)).expect("record");
    assert!(matches!(
        other.apply(record),
        Err(DurabilityError::StaleTerm { .. })
    ));
    assert_eq!(other.durable_sequence(), None);
}

#[test]
fn receipt_ledger_keeps_streams_apart() {
    let mut ledger = ReceiptLedger::default();
    let a = StreamId::new(1).expect("a");
    let b = StreamId::new(2).expect("b");
    ledger
        .record_event(a, 0, &event(1), LeaseTerm::initial(), PartitionGeneration::initial())
        .expect("a0");
    ledger
        .record_event(b, 0, &event(2), LeaseTerm::initial(), PartitionGeneration::initial())
        .expect("b0");
    assert!(ledger.contains(a, 0));
    assert!(ledger.contains(b, 0));
    assert!(!ledger.contains(a, 1));
    assert_eq!(ledger.stream_receipts(a).len(), 1);
    assert_eq!(ledger.len(), 2);
    assert!(!ledger.is_empty());
    assert!(matches!(
        ledger.record_event(a, 1, &event(2), LeaseTerm::initial(), PartitionGeneration::initial()),
        Err(DurabilityError::Corrupt(_))
    ));
}

#[test]
fn reissued_shard_carries_its_prefix_under_the_new_term() {
    let mut shard = shard();
    shard
        .apply_once(&envelope(0, 60, &[4]), |current: &[u8], event: &CausalEvent| {
            Ok::<_, &'static str>(vec![current[0] + event.payload[0]])
        })
        .expect("apply");
    let newer = LeaseTerm::new(2).expect("term");
    shard.reissue_term(newer).expect("reissue");
    assert_eq!(shard.lease_term(), newer);
    assert_eq!(shard.biological_state(), &[4]);
    assert_eq!(shard.durable_log_sequence(), Some(0));
    assert!(matches!(
        shard.reissue_term(newer),
        Err(DurabilityError::StaleTerm { .. })
    ));
    let checkpoint = shard.checkpoint_payload().expect("checkpoint");
    assert_eq!(checkpoint.lease_term, newer);
    assert_eq!(checkpoint.causal_state[0].lease_term, newer);
}

#[test]
fn shard_checkpoint_roundtrip_verifies_all_explicit_state_domains() {
    let mut payload = sample_payload(Some(4));
    let mut store = CheckpointStore::default();
    let id = EventId::new(14).expect("checkpoint");
    let sealed = payload.clone().seal().expect("seal payload");
    let manifest = store
        .publish(
            id,
            sealed.lease_term,
            sealed.partition_generation,
            sealed.durable_wal_sequence,
            sealed.encoded_bytes_without_digest(),
        )
        .expect("publish shard checkpoint");
    let published = store.verify(id).expect("verify shard checkpoint");
    assert_eq!(published.payload, sealed.encoded_bytes_without_digest());
    aarnn::checkpoint::check_shard_payload(&sealed, &manifest).expect("payload matches manifest");
    assert!(sealed.same_as(&payload.clone().seal().expect("seal payload")));

    payload.channel_state[0] ^= 1;
    payload.state_digest = StateDigest::zero();
    assert!(matches!(
        payload.verify(),
        Err(DurabilityError::ShardCheckpointDigestMismatch)
    ));
}

#[test]
fn tampered_persisted_state_is_a_digest_mismatch() {
    let mut active = shard();
    active
        .apply_once(&envelope(0, 70, &[3]), |current: &[u8], event: &CausalEvent| {
            Ok::<_, &'static str>(vec![current[0] + event.payload[0]])
        })
        .expect("apply");
    let mut payload = active.checkpoint_payload().expect("checkpoint");
    payload.biological_state = vec![99];
    assert!(matches!(
        DurableShard::restore_from_checkpoint(payload.clone(), StreamId::new(2).expect("stream"), 64),
        Err(DurabilityError::ShardCheckpointDigestMismatch)
    ));
    assert!(matches!(
        aarnn::owner::open_persisted(
            payload,
            BrainId::new(1).expect("brain"),
            ShardId::new(9).expect("shard"),
            TopologyGeneration::initial(),
            PartitionGeneration::initial(),
            LeaseTerm::initial(),
            StreamId::new(2).expect("stream"),
            64,
        ),
        Err(DurabilityError::ShardCheckpointDigestMismatch)
    ));
}

#[test]
fn warm_document_reports_the_replica_refusal() {
    let mut wal = CausalWal::new(LeaseTerm::initial());
    let _first = wal.append(LeaseTerm::initial(), &event(1)).expect("first");
    let second = wal.append(LeaseTerm::initial(), &event(2)).expect("second");
    let mut doc = aarnn::warm_document::WarmReplicaDocument::empty(LeaseTerm::initial());
    assert!(matches!(
        doc.apply(second),
        Err(DurabilityError::ReplicaSequenceGap { expected: 0, received: 1 })
    ));
    let mut other = CausalWal::new(LeaseTerm::new(2).expect("term"));
    let foreign = other.append(LeaseTerm::new(2).expect("term"), &event(3)).expect("foreign");
    assert!(matches!(doc.apply(foreign), Err(DurabilityError::StaleTerm { .. })));
    assert!(doc.records.is_empty());
}
