//! The in-memory fenced causal log: the semantic core of WAL durability.

use crate::data_plane::{CausalEnvelope, CausalEvent, CausalEventView, EnvelopeKind};
use crate::error::DurabilityError;
use crate::ids::{BrainId, LeaseTerm, SchemaVersion, StateDigest};
use crate::text::message_with_number;
use crate::wal::{
    bytes_equal, copy_records, chain_linked, chain_prev, chain_tip, chain_valid, copy_bytes, integrity_valid,
    opt_bytes_view, records_view, recomputed_digest, wal_digest, WalRecord, WalRecordView,
    WalReplayMetadata,
};
use vstd::prelude::*;
use vstd::string::*;

verus! {

/// Replay provenance of an envelope.
pub open spec fn envelope_replay(env: CausalEnvelope) -> WalReplayMetadata {
    WalReplayMetadata {
        stream_id: env.stream,
        producer_sequence: env.sequence,
        route: env.route,
        partition_generation: env.partition_generation,
        source: env.source,
        target: env.target,
        stage: env.stage,
        deferred_from_nonconvergence: env.deferred_from_nonconvergence,
    }
}

/// Whether an envelope carries exactly the staged event under `term`.
pub open spec fn envelope_matches(env: CausalEnvelope, term: LeaseTerm, event: CausalEventView) -> bool {
    env.lease_term == term && env.event == event.id && env.tag == event.key.tag && env.payload@
        == event.payload
}

/// The record that the log appends for an event after the records `rs`.
pub open spec fn next_record(
    rs: Seq<WalRecordView>,
    term: LeaseTerm,
    event: CausalEventView,
    replay: Option<WalReplayMetadata>,
    channel_state: Option<Seq<u8>>,
) -> WalRecordView {
    let sequence = rs.len() as u64;
    let previous = chain_tip(rs);
    WalRecordView {
        sequence,
        lease_term: term,
        tag: event.key.tag,
        event: event.id,
        payload: event.payload,
        replay,
        channel_state,
        previous_digest: previous,
        record_digest: wal_digest(
            sequence,
            term,
            event.key.tag,
            event.id,
            event.payload,
            previous,
            replay,
            channel_state,
        ),
    }
}

/// Appending a well-formed next record keeps a chain linked.
pub proof fn lemma_push_next_record(
    rs: Seq<WalRecordView>,
    term: LeaseTerm,
    event: CausalEventView,
    replay: Option<WalReplayMetadata>,
    channel_state: Option<Seq<u8>>,
)
    requires
        chain_linked(rs),
        rs.len() < u64::MAX,
    ensures
        chain_linked(rs.push(next_record(rs, term, event, replay, channel_state))),
{
    let r = next_record(rs, term, event, replay, channel_state);
    let s = rs.push(r);
    assert forall|i: int| 0 <= i < s.len() implies (#[trigger] s[i]).sequence == i
        && integrity_valid(s[i], chain_prev(s, i)) by {
        if i < rs.len() {
            assert(s[i] == rs[i]);
            assert(chain_prev(s, i) == chain_prev(rs, i));
        } else {
            assert(s[i] == r);
        }
    }
}

/// Record terms never decrease along the log, and none exceeds the active
/// term.
pub open spec fn terms_ordered(v: CausalWalView) -> bool {
    &&& forall|i: int, j: int|
        0 <= i < j < v.records.len() ==> (#[trigger] v.records[i]).lease_term.0 <= (
        #[trigger] v.records[j]).lease_term.0
    &&& forall|i: int| 0 <= i < v.records.len() ==> (#[trigger] v.records[i]).lease_term.0 <= v.active_term.0
}

/// Mathematical value of a [`CausalWal`]: its active term and its records.
pub struct CausalWalView {
    pub active_term: LeaseTerm,
    pub records: Seq<WalRecordView>,
}

/// The fenced, hash-chained causal log of one shard.
#[derive(Clone, Debug)]
pub struct CausalWal {
    active_term: LeaseTerm,
    next_sequence: u64,
    records: Vec<WalRecord>,
}

impl View for CausalWal {
    type V = CausalWalView;

    closed spec fn view(&self) -> CausalWalView {
        CausalWalView { active_term: self.active_term, records: records_view(self.records@) }
    }
}

impl CausalWal {
    /// The log's records are numbered by position and hash-chained.
    pub closed spec fn wf(&self) -> bool {
        &&& self.next_sequence == self.records@.len()
        &&& chain_linked(records_view(self.records@))
    }

    /// An empty log accepting `term`.
    pub fn new(term: LeaseTerm) -> (w: CausalWal)
        ensures
            terms_ordered(w@),
            w.wf(),
            w@.active_term == term,
            w@.records == Seq::<WalRecordView>::empty(),
    {
        let w = CausalWal { active_term: term, next_sequence: 0, records: Vec::new() };
        assert(records_view(w.records@) =~= Seq::<WalRecordView>::empty());
        w
    }

    /// A well-formed log holds at most `u64::MAX` records.
    pub proof fn lemma_len_bound(&self)
        requires
            self.wf(),
        ensures
            self@.records.len() <= u64::MAX,
    {
    }

    /// A copy of the log.
    pub fn copy(&self) -> (w: CausalWal)
        requires
            self.wf(),
        ensures
            w.wf(),
            w@ == self@,
    {
        CausalWal {
            active_term: self.active_term,
            next_sequence: self.next_sequence,
            records: copy_records(&self.records),
        }
    }

    /// The term that appends must carry.
    pub fn active_term(&self) -> (t: LeaseTerm)
        ensures
            t == self@.active_term,
    {
        self.active_term
    }

    /// Moves the active term forward to `term`; an older or equal term leaves
    /// the log unchanged. Records are never rewritten.
    pub fn fence(&mut self, term: LeaseTerm)
        requires
            old(self).wf(),
        ensures
            terms_ordered(old(self)@) ==> terms_ordered(final(self)@),
            final(self).wf(),
            final(self)@.records == old(self)@.records,
            final(self)@.active_term == (if term.0 > old(self)@.active_term.0 {
                term
            } else {
                old(self)@.active_term
            }),
    {
        if term.0 > self.active_term.0 {
            self.active_term = term;
        }
    }

    /// `Ok` exactly when `term` is the active term.
    pub fn require_term(&self, term: LeaseTerm) -> (r: Result<(), DurabilityError>)
        ensures
            r is Ok <==> term == self@.active_term,
            r matches Err(DurabilityError::StaleTerm { expected, received }) ==> expected
                == self@.active_term && received == term,
            r is Err ==> r matches Err(DurabilityError::StaleTerm { .. }),
    {
        if term == self.active_term {
            Ok(())
        } else {
            Err(DurabilityError::StaleTerm { expected: self.active_term, received: term })
        }
    }

    /// Appends an event without replay provenance.
    pub fn append(&mut self, term: LeaseTerm, event: &CausalEvent) -> (r: Result<
        WalRecord,
        DurabilityError,
    >)
        requires
            old(self).wf(),
        ensures
            terms_ordered(old(self)@) ==> terms_ordered(final(self)@),
            final(self).wf(),
            final(self)@.active_term == old(self)@.active_term,
            r is Ok <==> term == old(self)@.active_term && old(self)@.records.len() < u64::MAX,
            term != old(self)@.active_term ==> (r matches Err(DurabilityError::StaleTerm { expected, received })
                && expected == old(self)@.active_term && received == term),
            term == old(self)@.active_term && old(self)@.records.len() == u64::MAX ==> r matches Err(
                DurabilityError::SequenceOverflow,
            ),
            r is Err ==> final(self)@ == old(self)@,
            r matches Ok(rec) ==> rec@ == next_record(old(self)@.records, term, event@, None, None)
                && final(self)@.records == old(self)@.records.push(rec@),
    {
        self.append_with_replay(term, event, None, None)
    }

    /// Appends an event together with the provenance of the envelope that
    /// carried it and the channel boundary committed with it. The envelope
    /// must carry exactly the staged event under `term`.
    pub fn append_envelope(
        &mut self,
        term: LeaseTerm,
        event: &CausalEvent,
        envelope: &CausalEnvelope,
        channel_state: &[u8],
    ) -> (r: Result<WalRecord, DurabilityError>)
        requires
            old(self).wf(),
        ensures
            terms_ordered(old(self)@) ==> terms_ordered(final(self)@),
            final(self).wf(),
            final(self)@.active_term == old(self)@.active_term,
            r is Ok <==> envelope_matches(*envelope, term, event@) && term
                == old(self)@.active_term && old(self)@.records.len() < u64::MAX,
            !envelope_matches(*envelope, term, event@) ==> r matches Err(
                DurabilityError::Corrupt(_),
            ),
            envelope_matches(*envelope, term, event@) && term != old(self)@.active_term ==> (r matches Err(
                DurabilityError::StaleTerm { expected, received },
            ) && expected == old(self)@.active_term && received == term),
            envelope_matches(*envelope, term, event@) && term == old(self)@.active_term
                && old(self)@.records.len() == u64::MAX ==> r matches Err(
                DurabilityError::SequenceOverflow,
            ),
            r is Err ==> final(self)@ == old(self)@,
            r matches Ok(rec) ==> rec@ == next_record(
                old(self)@.records,
                term,
                event@,
                Some(envelope_replay(*envelope)),
                Some(channel_state@),
            ) && final(self)@.records == old(self)@.records.push(rec@),
    {
        if envelope.lease_term != term || envelope.event != event.id || envelope.tag
            != event.key.tag || !bytes_equal(envelope.payload.as_slice(), event.payload.as_slice()) {
            return Err(
                DurabilityError::Corrupt(
                    String::from_str("causal envelope does not match the staged event"),
                ),
            );
        }
        let replay = WalReplayMetadata {
            stream_id: envelope.stream,
            producer_sequence: envelope.sequence,
            route: envelope.route,
            partition_generation: envelope.partition_generation,
            source: envelope.source,
            target: envelope.target,
            stage: envelope.stage,
            deferred_from_nonconvergence: envelope.deferred_from_nonconvergence,
        };
        self.append_with_replay(term, event, Some(replay), Some(channel_state))
    }

    fn append_with_replay(
        &mut self,
        term: LeaseTerm,
        event: &CausalEvent,
        replay: Option<WalReplayMetadata>,
        channel_state: Option<&[u8]>,
    ) -> (r: Result<WalRecord, DurabilityError>)
        requires
            old(self).wf(),
        ensures
            terms_ordered(old(self)@) ==> terms_ordered(final(self)@),
            final(self).wf(),
            final(self)@.active_term == old(self)@.active_term,
            r is Ok <==> term == old(self)@.active_term && old(self)@.records.len() < u64::MAX,
            term != old(self)@.active_term ==> (r matches Err(DurabilityError::StaleTerm { expected, received })
                && expected == old(self)@.active_term && received == term),
            term == old(self)@.active_term && old(self)@.records.len() == u64::MAX ==> r matches Err(
                DurabilityError::SequenceOverflow,
            ),
            r is Err ==> final(self)@ == old(self)@,
            r matches Ok(rec) ==> rec@ == next_record(
                old(self)@.records,
                term,
                event@,
                replay,
                match channel_state {
                    Some(c) => Some(c@),
                    None => None,
                },
            ) && final(self)@.records == old(self)@.records.push(rec@),
    {
        self.require_term(term)?;
        let ghost old_records = records_view(self.records@);
        if self.next_sequence == u64::MAX {
            return Err(DurabilityError::SequenceOverflow);
        }
        let len = self.records.len();
        let previous_digest = if len == 0 {
            StateDigest::zero()
        } else {
            self.records[len - 1].record_digest
        };
        let sequence = self.next_sequence;
        let record_digest = WalRecord::digest_for(
            sequence,
            term,
            event.key.tag,
            event.id,
            event.payload.as_slice(),
            previous_digest,
            replay,
            channel_state,
        );
        let stored_channel: Option<Vec<u8>> = match channel_state {
            Some(c) => Some(copy_bytes(c)),
            None => None,
        };
        let record = WalRecord {
            sequence,
            lease_term: term,
            tag: event.key.tag,
            event: event.id,
            payload: copy_bytes(event.payload.as_slice()),
            replay,
            channel_state: stored_channel,
            previous_digest,
            record_digest,
        };
        let ghost cs = match channel_state {
            Some(c) => Some(c@),
            None => None,
        };
        assert(record@ == next_record(old_records, term, event@, replay, cs));
        proof {
            lemma_push_next_record(old_records, term, event@, replay, cs);
        }
        self.next_sequence = self.next_sequence + 1;
        let stored = record.copy();
        self.records.push(stored);
        assert(records_view(self.records@) =~= old_records.push(record@));
        Ok(record)
    }

    /// The records at or after `sequence`, in log order.
    pub fn records_since(&self, sequence: u64) -> (out: Vec<WalRecord>)
        requires
            self.wf(),
        ensures
            records_view(out@) == self@.records.filter(|r: WalRecordView| r.sequence >= sequence),
    {
        let mut out: Vec<WalRecord> = Vec::new();
        let mut i: usize = 0;
        while i < self.records.len()
            invariant
                i <= self.records@.len(),
                records_view(out@) == records_view(self.records@).subrange(0, i as int).filter(
                    |r: WalRecordView| r.sequence >= sequence,
                ),
            decreases self.records@.len() - i,
        {
            let ghost pre = records_view(self.records@).subrange(0, i as int);
            if self.records[i].sequence >= sequence {
                out.push(self.records[i].copy());
            }
            proof {
                let rs = records_view(self.records@);
                assert(rs.subrange(0, i + 1) =~= pre.push(rs[i as int]));
                pre.lemma_filter_push(rs[i as int], |r: WalRecordView| r.sequence >= sequence);
            }
            i = i + 1;
            assert(records_view(out@) =~= records_view(self.records@).subrange(0, i as int).filter(
                |r: WalRecordView| r.sequence >= sequence,
            ));
        }
        assert(records_view(self.records@).subrange(0, self.records@.len() as int)
            =~= records_view(self.records@));
        out
    }

    /// Rebuilds a log from records after checking the whole chain: every
    /// record is numbered by its position, carries `term`, and is intact.
    pub fn from_records(term: LeaseTerm, records: Vec<WalRecord>) -> (r: Result<
        CausalWal,
        DurabilityError,
    >)
        ensures
            r matches Ok(w) ==> terms_ordered(w@),
            r is Ok <==> chain_valid(records_view(records@), term),
            r is Err ==> r matches Err(DurabilityError::Corrupt(_)),
            r matches Ok(w) ==> w.wf() && w@.active_term == term && w@.records == records_view(
                records@,
            ),
    {
        let mut i: usize = 0;
        while i < records.len()
            invariant
                i <= records@.len(),
                forall|j: int|
                    0 <= j < i ==> (#[trigger] records_view(records@)[j]).sequence == j
                        && records_view(records@)[j].lease_term == term && integrity_valid(
                        records_view(records@)[j],
                        chain_prev(records_view(records@), j),
                    ),
            decreases records@.len() - i,
        {
            let previous = if i == 0 {
                StateDigest::zero()
            } else {
                records[i - 1].record_digest
            };
            let record = &records[i];
            if record.sequence != i as u64 || record.lease_term != term
                || !record.is_integrity_valid(previous) {
                proof {
                    reveal(chain_valid);
                    let rs = records_view(records@);
                    assert(rs[i as int] == records@[i as int]@);
                    if chain_valid(rs, term) {
                        assert(rs[i as int].sequence == i);
                        assert(rs[i as int].lease_term == term);
                    }
                }
                return Err(
                    DurabilityError::Corrupt(
                        message_with_number(
                            "WAL record chain is invalid at sequence ",
                            record.sequence,
                        ),
                    ),
                );
            }
            assert(records_view(records@)[i as int] == records@[i as int]@);
            i = i + 1;
        }
        let ghost rs = records_view(records@);
        assert(chain_valid(rs, term)) by {
            reveal(chain_valid);
            assert forall|j: int| 0 <= j < rs.len() implies (#[trigger] rs[j]).lease_term == term by {
                assert(rs[j] == records_view(records@)[j]);
            }
        }
        let n = records.len() as u64;
        Ok(CausalWal { active_term: term, next_sequence: n, records })
    }

    /// The records, in log order.
    pub fn records(&self) -> (r: &Vec<WalRecord>)
        ensures
            records_view(r@) == self@.records,
    {
        &self.records
    }

    /// The sequence of the last record, if there is one.
    pub fn last_sequence(&self) -> (r: Option<u64>)
        requires
            self.wf(),
        ensures
            r == (if self@.records.len() == 0 {
                None
            } else {
                Some((self@.records.len() - 1) as u64)
            }),
    {
        if self.next_sequence == 0 {
            None
        } else {
            Some(self.next_sequence - 1)
        }
    }
}


/// The record `r` re-signed under `term` after the re-signed records
/// `done`: every field but the term and the two digests is kept.
pub open spec fn retermed_record(r: WalRecordView, term: LeaseTerm, previous: StateDigest) -> WalRecordView {
    let base = WalRecordView { lease_term: term, previous_digest: previous, ..r };
    WalRecordView { record_digest: recomputed_digest(base), ..base }
}

/// `out` is `rs` re-signed under `term`: each record keeps its content, takes
/// the new term, and is re-linked into a fresh hash chain.
pub open spec fn is_retermed(rs: Seq<WalRecordView>, out: Seq<WalRecordView>, term: LeaseTerm) -> bool {
    out.len() == rs.len() && forall|i: int|
        0 <= i < rs.len() ==> #[trigger] out[i] == retermed_record(rs[i], term, chain_prev(out, i))
}

/// Re-signs a complete record prefix under a new term.
pub fn reterm_records(records: &[WalRecord], term: LeaseTerm) -> (out: Vec<WalRecord>)
    ensures
        is_retermed(records_view(records@), records_view(out@), term),
{
    let mut previous_digest = StateDigest::zero();
    let mut out: Vec<WalRecord> = Vec::new();
    let mut i: usize = 0;
    while i < records.len()
        invariant
            i <= records@.len(),
            out@.len() == i,
            previous_digest == chain_prev(records_view(out@), i as int),
            forall|j: int|
                0 <= j < i ==> #[trigger] records_view(out@)[j] == retermed_record(
                    records_view(records@)[j],
                    term,
                    chain_prev(records_view(out@), j),
                ),
        decreases records@.len() - i,
    {
        let mut next = records[i].copy();
        next.lease_term = term;
        next.previous_digest = previous_digest;
        let channel: Option<&[u8]> = match &next.channel_state {
            Some(c) => Some(c.as_slice()),
            None => None,
        };
        next.record_digest = WalRecord::digest_for(
            next.sequence,
            next.lease_term,
            next.tag,
            next.event,
            next.payload.as_slice(),
            next.previous_digest,
            next.replay,
            channel,
        );
        previous_digest = next.record_digest;
        let ghost old_out = records_view(out@);
        assert(next@ == retermed_record(records@[i as int]@, term, chain_prev(old_out, i as int)));
        out.push(next);
        proof {
            let now = records_view(out@);
            assert(now =~= old_out.push(next@));
            assert forall|j: int| 0 <= j < i + 1 implies #[trigger] now[j] == retermed_record(
                records_view(records@)[j],
                term,
                chain_prev(now, j),
            ) by {
                if j < i {
                    assert(now[j] == old_out[j]);
                    assert(chain_prev(now, j) == chain_prev(old_out, j));
                } else {
                    assert(records_view(records@)[j] == records@[j]@);
                }
            }
        }
        i = i + 1;
    }
    out
}

/// Re-signing keeps positional numbering and yields an intact chain carrying
/// the new term.
pub proof fn lemma_retermed_chain_valid(rs: Seq<WalRecordView>, out: Seq<WalRecordView>, term: LeaseTerm)
    requires
        is_retermed(rs, out, term),
        forall|i: int| 0 <= i < rs.len() ==> (#[trigger] rs[i]).sequence == i,
    ensures
        chain_valid(out, term),
{
    reveal(chain_valid);
    assert forall|i: int| 0 <= i < out.len() implies (#[trigger] out[i]).sequence == i
        && integrity_valid(out[i], chain_prev(out, i)) && out[i].lease_term == term by {
        assert(out[i] == retermed_record(rs[i], term, chain_prev(out, i)));
        assert(rs[i].sequence == i);
    }
}

impl WalRecord {
    /// Reconstructs the envelope that carried this record's event, for
    /// catch-up replay under `lease_term`. Records written without replay
    /// provenance cannot be replayed.
    pub fn replay_envelope(&self, brain: BrainId, lease_term: LeaseTerm) -> (r: Result<
        CausalEnvelope,
        DurabilityError,
    >)
        ensures
            r is Ok <==> self.replay is Some,
            r is Err ==> r matches Err(DurabilityError::Corrupt(_)),
            r matches Ok(env) ==> {
                let m = self.replay->0;
                &&& env.schema_version.0 == 1
                &&& env.brain == brain
                &&& env.stream == m.stream_id
                &&& env.sequence == m.producer_sequence
                &&& env.lease_term == lease_term
                &&& env.route == m.route
                &&& env.partition_generation == m.partition_generation
                &&& env.source == m.source
                &&& env.target == m.target
                &&& env.tag == self.tag
                &&& env.event == self.event
                &&& env.stage == m.stage
                &&& env.kind == EnvelopeKind::Event
                &&& env.payload@ == self.payload@
                &&& env.deferred_from_nonconvergence == m.deferred_from_nonconvergence
            },
    {
        match self.replay {
            None => Err(
                DurabilityError::Corrupt(
                    String::from_str(
                        "WAL record lacks causal replay provenance; a new checkpoint is required",
                    ),
                ),
            ),
            Some(m) => Ok(
                CausalEnvelope {
                    schema_version: SchemaVersion::current(),
                    brain,
                    stream: m.stream_id,
                    sequence: m.producer_sequence,
                    lease_term,
                    route: m.route,
                    partition_generation: m.partition_generation,
                    source: m.source,
                    target: m.target,
                    tag: self.tag,
                    event: self.event,
                    stage: m.stage,
                    kind: EnvelopeKind::Event,
                    payload: copy_bytes(self.payload.as_slice()),
                    deferred_from_nonconvergence: m.deferred_from_nonconvergence,
                },
            ),
        }
    }
}

/// The persisted form of a [`CausalWal`].
#[derive(Clone, Debug)]
pub struct WalDocument {
    pub schema_version: SchemaVersion,
    pub active_term: LeaseTerm,
    pub next_sequence: u64,
    pub records: Vec<WalRecord>,
}

/// The records are numbered by position, intact, and each carries a
/// non-zero term.
pub open spec fn loadable_chain(rs: Seq<WalRecordView>) -> bool {
    chain_linked(rs) && forall|i: int| 0 <= i < rs.len() ==> (#[trigger] rs[i]).lease_term.0 != 0
}

/// A persisted log can be opened by a writer of `term`.
pub open spec fn document_opens(d: WalDocument, term: LeaseTerm) -> bool {
    &&& d.schema_version.0 == 1
    &&& loadable_chain(records_view(d.records@))
    &&& d.next_sequence == d.records@.len()
    &&& term.0 >= d.active_term.0
}

impl CausalWal {
    /// The persisted form of the log.
    pub fn to_document(&self) -> (d: WalDocument)
        requires
            self.wf(),
        ensures
            d.schema_version.0 == 1,
            d.active_term == self@.active_term,
            d.next_sequence == self@.records.len(),
            records_view(d.records@) == self@.records,
    {
        WalDocument {
            schema_version: SchemaVersion::current(),
            active_term: self.active_term,
            next_sequence: self.next_sequence,
            records: copy_records(&self.records),
        }
    }

    /// Opens a persisted log for a writer of `term`: the schema must be
    /// current, the records an intact chain numbered by position, the next
    /// sequence must follow them, and `term` must not be older than the
    /// persisted active term, which it then fences forward. The log must be
    /// persisted again exactly when the active term moved.
    pub fn open_document(document: WalDocument, term: LeaseTerm) -> (r: Result<CausalWal, DurabilityError>)
        ensures
            r is Ok <==> document_opens(document, term),
            document.schema_version.0 != 1 ==> r matches Err(DurabilityError::Corrupt(_)),
            document.schema_version.0 == 1 && !(loadable_chain(records_view(document.records@))
                && document.next_sequence == document.records@.len()) ==> r matches Err(
                DurabilityError::Corrupt(_),
            ),
            document.schema_version.0 == 1 && loadable_chain(records_view(document.records@))
                && document.next_sequence == document.records@.len() && term.0 < document.active_term.0
                ==> (r matches Err(DurabilityError::StaleTerm { expected, received })
                && expected == document.active_term && received == term),
            r matches Ok(w) ==> w.wf() && w@.active_term == term && w@.records == records_view(
                document.records@,
            ),
    {
        if document.schema_version.0 != 1 {
            return Err(
                DurabilityError::Corrupt(
                    message_with_number("unsupported WAL schema ", document.schema_version.0 as u64),
                ),
            );
        }
        let ghost rs = records_view(document.records@);
        let mut i: usize = 0;
        while i < document.records.len()
            invariant
                i <= document.records@.len(),
                rs == records_view(document.records@),
                forall|j: int|
                    0 <= j < i ==> (#[trigger] rs[j]).sequence == j && rs[j].lease_term.0 != 0
                        && integrity_valid(rs[j], chain_prev(rs, j)),
            decreases document.records@.len() - i,
        {
            let previous = if i == 0 {
                StateDigest::zero()
            } else {
                document.records[i - 1].record_digest
            };
            let record = &document.records[i];
            assert(rs[i as int] == document.records@[i as int]@);
            if record.sequence != i as u64 || record.lease_term.0 == 0 || !record.is_integrity_valid(
                previous,
            ) {
                return Err(
                    DurabilityError::Corrupt(
                        String::from_str("WAL records are not a contiguous, integrity-verified chain"),
                    ),
                );
            }
            i = i + 1;
        }
        if document.next_sequence != document.records.len() as u64 {
            return Err(
                DurabilityError::Corrupt(
                    String::from_str("WAL next sequence does not follow its records"),
                ),
            );
        }
        if term.0 < document.active_term.0 {
            return Err(DurabilityError::StaleTerm { expected: document.active_term, received: term });
        }
        Ok(CausalWal { active_term: term, next_sequence: document.next_sequence, records: document.records })
    }
}

/// The records of a well-formed log are numbered by position from zero,
/// each links to its predecessor's digest (the first to the zero digest), and
/// each carries the digest of its own fields; the last sequence is one less
/// than the number of records. Together with [`terms_ordered`], which
/// `new`, `from_records`, `fence` and the appends keep, record terms never
/// decrease along the log.
pub proof fn lemma_wal_chained(w: CausalWal)
    requires
        w.wf(),
    ensures
        chain_linked(w@.records),
        w@.records.len() <= u64::MAX,
        forall|i: int| 0 <= i < w@.records.len() ==> (#[trigger] w@.records[i]).sequence == i,
        w@.records.len() > 0 ==> w@.records[0].previous_digest == (StateDigest { high: 0, low: 0 }),
        forall|i: int|
            0 < i < w@.records.len() ==> (#[trigger] w@.records[i]).previous_digest == w@.records[i - 1].record_digest,
        forall|i: int| 0 <= i < w@.records.len() ==> (#[trigger] w@.records[i]).record_digest == recomputed_digest(
            w@.records[i],
        ),
{
    assert forall|i: int| 0 <= i < w@.records.len() implies (#[trigger] w@.records[i]).sequence == i by {
    }
    if w@.records.len() > 0 {
        assert(integrity_valid(w@.records[0], chain_prev(w@.records, 0)));
    }
}

/// A log persisted with [`CausalWal::to_document`] reopens for any writer
/// whose term is not older than the log's, with the same records, provided
/// every record carries a non-zero term.
pub proof fn lemma_persisted_wal_reopens(w: CausalWal, d: WalDocument, term: LeaseTerm)
    requires
        w.wf(),
        d.schema_version.0 == 1,
        d.active_term == w@.active_term,
        d.next_sequence == w@.records.len(),
        records_view(d.records@) == w@.records,
        term.0 >= w@.active_term.0,
        forall|i: int| 0 <= i < w@.records.len() ==> (#[trigger] w@.records[i]).lease_term.0 != 0,
    ensures
        document_opens(d, term),
{
    assert(d.records@.len() == w@.records.len());
}

/// One operation on a log, as the contracts of its methods describe it.
pub enum WalStep {
    /// `fence(term)`.
    Fence(LeaseTerm),
    /// `append`, `append_envelope` or a replayed append under `term`.
    Append(LeaseTerm, CausalEventView, Option<WalReplayMetadata>, Option<Seq<u8>>),
    /// An append refused for another reason (a mismatching envelope).
    Refused,
}

/// The log after one operation: a fence moves the active term forward; an
/// append under the active term, with room left, adds the next record;
/// anything else changes nothing.
pub open spec fn wal_step(v: CausalWalView, step: WalStep) -> CausalWalView {
    match step {
        WalStep::Fence(term) => CausalWalView {
            active_term: if term.0 > v.active_term.0 {
                term
            } else {
                v.active_term
            },
            ..v
        },
        WalStep::Append(term, event, replay, channel) => if term == v.active_term && v.records.len() < u64::MAX {
            CausalWalView { records: v.records.push(next_record(v.records, term, event, replay, channel)), ..v }
        } else {
            v
        },
        WalStep::Refused => v,
    }
}

/// The log after a sequence of operations.
pub open spec fn wal_after(v: CausalWalView, steps: Seq<WalStep>) -> CausalWalView
    decreases steps.len(),
{
    if steps.len() == 0 {
        v
    } else {
        wal_step(wal_after(v, steps.drop_last()), steps.last())
    }
}

/// In every log reached from `new(term)`, or from `from_records(term, ..)`
/// on an intact chain, by any sequence of fences and appends, record terms
/// never decrease and none exceeds the active term.
pub proof fn lemma_reachable_wal_terms_ordered(start: CausalWalView, steps: Seq<WalStep>)
    requires
        chain_valid(start.records, start.active_term),
    ensures
        terms_ordered(wal_after(start, steps)),
    decreases steps.len(),
{
    if steps.len() == 0 {
        reveal(chain_valid);
    } else {
        lemma_reachable_wal_terms_ordered(start, steps.drop_last());
        let v = wal_after(start, steps.drop_last());
        let w = wal_after(start, steps);
        match steps.last() {
            WalStep::Append(term, event, replay, channel) => {
                if term == v.active_term && v.records.len() < u64::MAX {
                    assert forall|i: int, j: int| 0 <= i < j < w.records.len() implies (#[trigger] w.records[i]).lease_term.0
                        <= (#[trigger] w.records[j]).lease_term.0 by {
                        assert(w.records[i] == v.records[i]);
                        if j < v.records.len() {
                            assert(w.records[j] == v.records[j]);
                        }
                    }
                    assert forall|i: int| 0 <= i < w.records.len() implies (#[trigger] w.records[i]).lease_term.0
                        <= w.active_term.0 by {
                        if i < v.records.len() {
                            assert(w.records[i] == v.records[i]);
                        }
                    }
                }
            },
            _ => {},
        }
    }
}

} // verus!
